//! Laws of the index that relate several operations.

use crate::index::state::{DamageLists, Entry, IndexState, Key, Mark};
use crate::index::types::Aabb2D;
use vstd::prelude::*;

verus! {

/// What a commit leaves of one slot: a removed entry is gone, any other
/// entry is settled.
pub open spec fn settle<T, P>(slot: Option<Entry<T, P>>) -> Option<Entry<T, P>> {
    match slot {
        Some(e) => match e.mark {
            Some(Mark::Removed) => None,
            Some(Mark::Updated) => Some(
                Entry {
                    generation: e.generation,
                    aabb: e.aabb,
                    payload: e.payload,
                    mark: None,
                    prev_aabb: None,
                },
            ),
            Some(Mark::Added) => Some(
                Entry {
                    generation: e.generation,
                    aabb: e.aabb,
                    payload: e.payload,
                    mark: None,
                    prev_aabb: e.prev_aabb,
                },
            ),
            None => Some(e),
        },
        None => None,
    }
}

/// Whether committing a slot reports no damage: it is vacant or settled,
/// or it was updated to the box it had.
pub open spec fn quiet<T: Copy + PartialOrd, P>(slot: Option<Entry<T, P>>) -> bool {
    match slot {
        Some(e) => match e.mark {
            Some(Mark::Added) => false,
            Some(Mark::Removed) => false,
            Some(Mark::Updated) => match e.prev_aabb {
                Some(p) => p.same(e.aabb),
                None => true,
            },
            None => true,
        },
        None => true,
    }
}

/// Whether a damage record lists nothing.
pub open spec fn nothing<T>(d: DamageLists<T>) -> bool {
    d.added.len() == 0 && d.removed.len() == 0 && d.moved.len() == 0
}

impl<T: Copy + PartialOrd, P: Copy> IndexState<T, P> {
    /// What committing the first `n` slots leaves: those slots settled,
    /// the others untouched, and the invariant intact.
    pub proof fn lemma_commit_upto(self, n: nat)
        requires
            self.wf(),
            n <= self.slots.len(),
        ensures
            self.commit_upto(n).wf(),
            self.commit_upto(n).slots.len() == self.slots.len(),
            self.commit_upto(n).generations == self.generations,
            forall|j: int| 0 <= j < n ==> #[trigger] self.commit_upto(n).slots[j] == settle(self.slots[j]),
            forall|j: int|
                n <= j < self.slots.len() ==> #[trigger] self.commit_upto(n).slots[j]
                    == self.slots[j],
        decreases n,
    {
        if n > 0 {
            let m = (n - 1) as nat;
            self.lemma_commit_upto(m);
            let mid = self.commit_upto(m);
            mid.lemma_commit_slot_wf(m as usize);
            assert(mid.slots[m as int] == self.slots[m as int]);
            assert forall|j: int| 0 <= j < n implies #[trigger] self.commit_upto(n).slots[j]
                == settle(self.slots[j]) by {
                if j < m {
                    assert(mid.slots[j] == settle(self.slots[j]));
                }
            }
        }
    }

    /// A commit settles every slot: removed entries are gone, every other
    /// entry has no pending change, and the backend holds exactly the
    /// boxes of the entries that remain.
    pub proof fn lemma_commit(self)
        requires
            self.wf(),
        ensures
            self.commit().wf(),
            self.commit().settled(),
            self.commit().slots.len() == self.slots.len(),
            self.commit().generations == self.generations,
            forall|j: int|
                0 <= j < self.slots.len() ==> #[trigger] self.commit().slots[j] == settle(
                    self.slots[j],
                ),
            forall|i: usize|
                self.commit().boxes.dom().contains(i) <==> i < self.slots.len() && settle(
                    self.slots[i as int],
                ) is Some,
            forall|i: usize|
                self.commit().boxes.dom().contains(i) ==> self.commit().boxes[i] == settle(
                    self.slots[i as int],
                )->0.aabb,
    {
        self.lemma_commit_upto(self.slots.len());
        let c = self.commit();
        assert forall|i: usize|
            c.boxes.dom().contains(i) <==> i < self.slots.len() && settle(self.slots[i as int])
                is Some by {
            assert(c.boxes.dom().contains(i) <==> c.materialised(i));
            if i < self.slots.len() {
                assert(c.slots[i as int] == settle(self.slots[i as int]));
            }
        }
        assert forall|i: usize| c.boxes.dom().contains(i) implies c.boxes[i] == settle(
            self.slots[i as int],
        )->0.aabb by {
            assert(c.materialised(i));
            assert(c.slots[i as int] == settle(self.slots[i as int]));
        }
    }

    /// The damage of the first `n` slots is empty exactly where each of
    /// them is quiet.
    pub proof fn lemma_damage_upto(self, n: nat)
        requires
            n <= self.slots.len(),
            self.slots.len() <= u32::MAX,
        ensures
            nothing(self.damage_upto(n)) <==> forall|j: int|
                0 <= j < n ==> quiet(#[trigger] self.slots[j]),
        decreases n,
    {
        if n > 0 {
            let m = (n - 1) as nat;
            self.lemma_damage_upto(m);
            let before = self.damage_upto(m);
            let after = self.damage_slot(m as usize, before);
            assert(after == self.damage_upto(n));
            assert(after.added.len() >= before.added.len());
            assert(after.removed.len() >= before.removed.len());
            assert(after.moved.len() >= before.moved.len());
            assert(nothing(after) <==> nothing(before) && quiet(self.slots[m as int]));
            if nothing(self.damage_upto(n)) {
                assert forall|j: int| 0 <= j < n implies quiet(#[trigger] self.slots[j]) by {
                    if j < m {
                    }
                }
            }
            if forall|j: int| 0 <= j < n ==> quiet(#[trigger] self.slots[j]) {
                assert(quiet(self.slots[m as int]));
            } else {
                let j = choose|j: int| 0 <= j < n && !quiet(#[trigger] self.slots[j]);
                if j == m {
                    assert(!nothing(self.damage_upto(n)));
                }
            }
        }
    }

    /// A commit reports no damage exactly where every slot is quiet.
    pub proof fn lemma_damage(self)
        requires
            self.slots.len() <= u32::MAX,
        ensures
            nothing(self.damage()) <==> forall|j: int|
                0 <= j < self.slots.len() ==> quiet(#[trigger] self.slots[j]),
    {
        self.lemma_damage_upto(self.slots.len());
    }

    /// The damage of the first `n` slots depends on what those slots hold
    /// alone.
    pub proof fn lemma_damage_same(self, other: Self, n: nat)
        requires
            n <= self.slots.len(),
            n <= other.slots.len(),
            forall|j: int| 0 <= j < n ==> self.slots[j] == other.slots[j],
        ensures
            self.damage_upto(n) == other.damage_upto(n),
        decreases n,
    {
        if n > 0 {
            self.lemma_damage_same(other, (n - 1) as nat);
        }
    }

    /// An insertion that is removed again before any commit is elided.
    ///
    /// The entry is gone at once. The next commit reports the damage it
    /// would have reported without the two calls: none at all where
    /// nothing else was pending. After that commit the key finds nothing
    /// and the backend holds no box under the key's slot.
    pub proof fn lemma_insert_then_remove(self, aabb: Aabb2D<T>, payload: P)
        requires
            self.wf(),
            self.has_room(),
        ensures
            ({
                let key = self.next_key();
                let after = self.insert(aabb, payload).remove(key);
                &&& after.wf()
                &&& after.lookup(key) is None
                &&& after.damage() == self.damage()
                &&& self.settled() ==> nothing(after.damage())
                &&& after.commit().lookup(key) is None
                &&& !after.commit().boxes.dom().contains(key.0 as usize)
            }),
    {
        let key = self.next_key();
        let mid = self.insert(aabb, payload);
        self.lemma_insert_wf(aabb, payload);
        let after = mid.remove(key);
        mid.lemma_remove_wf(key);
        let idx = key.0 as int;
        assert(mid.lookup(key) is Some);
        assert(after.slots[idx] is None);
        after.lemma_commit();
        after.lemma_damage();
        assert(after.commit().slots[idx] == settle(after.slots[idx]));
        assert forall|j: int| 0 <= j < self.slots.len() implies after.slots[j] == self.slots[j] by {
            if j == idx {
                assert(self.free[self.free.len() - 1] == self.free.last());
            }
        }
        after.lemma_damage_same(self, self.slots.len());
        if self.settled() {
            assert forall|j: int| 0 <= j < after.slots.len() implies quiet(
                #[trigger] after.slots[j],
            ) by {
                if j != idx {
                    assert(after.slots[j] == self.slots[j]);
                }
            }
        }
    }

    /// Whether `key` may have been returned by an insertion into this
    /// index: its slot exists and its generation is one that the slot has
    /// reached.
    pub open spec fn issued(self, key: Key) -> bool {
        key.0 < self.slots.len() && key.1 <= self.generations[key.0 as int]
    }

    /// A key that finds nothing stays stale: no insertion gives it an
    /// entry again, because a reused slot gets a higher generation.
    pub proof fn lemma_stale_stays_stale(self, key: Key, aabb: Aabb2D<T>, payload: P)
        requires
            self.wf(),
            self.has_room(),
            self.issued(key),
            self.lookup(key) is None,
        ensures
            self.insert(aabb, payload).issued(key),
            self.insert(aabb, payload).lookup(key) is None,
            self.next_key() != key,
    {
        self.lemma_insert_wf(aabb, payload);
    }
}

} // verus!
