//! Committing the tree: what a commit leaves of the arena and of the
//! index, and what holds while the nodes are brought up to date one by one.

use crate::box_tree::geometry::{
    bbox_of, holds_corner_images, met_keys, numbers, rect_keys,
};
use crate::box_tree::keys::keys_of_rect;
use crate::box_tree::state::{entry_ok, key_ok, synced, NodeView, TreeState};
use crate::box_tree::types::NodeId;
use crate::index::laws::{quiet, settle};
use crate::index::state::{IndexState, Key, Mark};
use vstd::prelude::*;

verus! {

/// The node `n` brought up to date: world data `world`, index key `key`,
/// and no dirty flag left.
pub open spec fn updated(n: NodeView, world: crate::box_tree::types::WorldNode, key: Key) -> NodeView {
    NodeView { world, index_key: Some(key), dirty: crate::box_tree::types::Dirty::none(), ..n }
}

impl TreeState {
    /// The occupied slots.
    pub open spec fn occupied_slots(self) -> Set<int> {
        Set::new(|j: int| self.occupied(j))
    }

    /// World bounds of slot `j` as of the last commit.
    pub open spec fn old_bounds(self, j: int) -> kurbo::Rect {
        self.nodes[j]->0.world.world_bounds
    }

    /// World bounds of slot `j` as the next commit derives them.
    pub open spec fn new_bounds(self, j: int) -> kurbo::Rect {
        self.derived(j).world_bounds
    }

    /// Whether the commit changes the box of slot `j`.
    pub open spec fn moves(self, j: int) -> bool {
        keys_of_rect(self.old_bounds(j)) != keys_of_rect(self.new_bounds(j))
    }

    /// `rect` is damage of one of the nodes in `done`: the old or the new
    /// world bounds of a node whose box changes, where they are not
    /// degenerate.
    pub open spec fn node_damage(self, done: Set<int>, rect: kurbo::Rect) -> bool {
        exists|j: int|
            #![trigger done.contains(j)]
            done.contains(j) && self.occupied(j) && self.moves(j) && ((rect == self.old_bounds(j)
                && !keys_of_rect(self.old_bounds(j)).degenerate()) || (rect == self.new_bounds(j)
                && !keys_of_rect(self.new_bounds(j)).degenerate()))
    }

    /// `rect` is one that the index damage covers for the nodes in `done`:
    /// the new world bounds of a node that enters the index, or the old or
    /// the new world bounds of one whose box changes.
    pub open spec fn index_damage(self, done: Set<int>, rect: kurbo::Rect) -> bool {
        exists|j: int|
            #![trigger done.contains(j)]
            done.contains(j) && self.occupied(j) && if self.nodes[j]->0.index_key is None {
                rect == self.new_bounds(j)
            } else {
                self.moves(j) && (rect == self.old_bounds(j) || rect == self.new_bounds(j))
            }
    }

    /// `after` is the arena that a commit leaves: every node has the world
    /// data that the links and the local geometry give it, an index key,
    /// the one it had where it had one, and no dirty flag. Nothing else
    /// changes.
    pub open spec fn committed(self, after: TreeState) -> bool {
        &&& after.nodes.len() == self.nodes.len()
        &&& after.generations == self.generations
        &&& after.free == self.free
        &&& after.depths == self.depths
        &&& forall|j: int|
            0 <= j < self.nodes.len() ==> match self.nodes[j] {
                Some(n) => {
                    &&& (#[trigger] after.nodes[j]) matches Some(m)
                    &&& m.index_key matches Some(k)
                    &&& m == updated(n, self.derived(j), k)
                    &&& n.index_key is Some ==> n.index_key == m.index_key
                },
                None => after.nodes[j] is None,
            }
    }

    /// The root above slot `j`: the end of its parent chain.
    pub open spec fn top(self, j: int, fuel: nat) -> int
        decreases fuel,
    {
        match self.nodes[j]->0.parent {
            Some(p) => if fuel > 0 {
                self.top(p.0 as int, (fuel - 1) as nat)
            } else {
                j
            },
            None => j,
        }
    }

    /// The root above an occupied slot is an occupied root, and the slot
    /// is in its subtree and in that of no other root.
    pub proof fn lemma_top(self, j: int, fuel: nat)
        requires
            self.wf(),
            self.occupied(j),
            fuel == self.depths[j],
        ensures
            self.occupied(self.top(j, fuel)),
            self.nodes[self.top(j, fuel)]->0.parent is None,
            self.under(self.top(j, fuel), j, fuel),
            forall|r: int|
                self.occupied(r) && self.nodes[r]->0.parent is None && self.under(r, j, fuel)
                    ==> r == self.top(j, fuel),
        decreases fuel,
    {
        assert(self.parent_ok(j));
        match self.nodes[j]->0.parent {
            Some(p) => {
                self.lemma_top(p.0 as int, (fuel - 1) as nat);
            },
            None => {},
        }
    }
}

/// What holds in the middle of a commit, when the nodes in `done` are up
/// to date and the others untouched.
///
/// `t0` is the arena before the commit, `now` the arena and `idx` the
/// index as they are. A node that is done has its derived world data and
/// an index entry that is marked added or updated with the keys of its
/// new world bounds; with a node its parent is done too.
pub open spec fn mid_commit(
    t0: TreeState,
    now: TreeState,
    idx: IndexState<i64, NodeId>,
    done: Set<int>,
) -> bool {
    &&& now.nodes.len() == t0.nodes.len()
    &&& now.generations == t0.generations
    &&& now.free == t0.free
    &&& now.depths == t0.depths
    &&& forall|j: int| 0 <= j < t0.nodes.len() ==> #[trigger] node_mid(t0, now, done, j)
    &&& forall|j: int| t0.occupied(j) ==> #[trigger] key_mid(t0, now, idx, done, j)
    &&& forall|j: int| 0 <= j < idx.slots.len() ==> #[trigger] entry_mid(t0, now, idx, done, j)
}

/// Slot `j` of the arena in the middle of a commit.
pub open spec fn node_mid(t0: TreeState, now: TreeState, done: Set<int>, j: int) -> bool {
    if done.contains(j) {
        &&& t0.nodes[j] matches Some(n)
        &&& now.nodes[j] matches Some(m)
        &&& m.index_key matches Some(k)
        &&& m == updated(n, t0.derived(j), k)
        &&& n.index_key is Some ==> n.index_key == m.index_key
        &&& n.parent matches Some(q) ==> done.contains(q.0 as int)
    } else {
        now.nodes[j] == t0.nodes[j]
    }
}

/// The index entry of the node in slot `j` in the middle of a commit.
pub open spec fn key_mid(
    t0: TreeState,
    now: TreeState,
    idx: IndexState<i64, NodeId>,
    done: Set<int>,
    j: int,
) -> bool {
    match now.nodes[j]->0.index_key {
        Some(k) => {
            &&& idx.lookup(k) matches Some(e)
            &&& e.payload == t0.id_at(j)
            &&& e.aabb == keys_of_rect(now.nodes[j]->0.world.world_bounds)
            &&& if done.contains(j) {
                if t0.nodes[j]->0.index_key is Some {
                    e.mark == Some(Mark::Updated) && e.prev_aabb == Some(
                        keys_of_rect(t0.old_bounds(j)),
                    )
                } else {
                    e.mark == Some(Mark::Added)
                }
            } else {
                e.mark is None
            }
        },
        None => true,
    }
}

/// Index slot `j` in the middle of a commit: an entry that is not marked
/// removed belongs to the live node that is its payload.
pub open spec fn entry_mid(
    t0: TreeState,
    now: TreeState,
    idx: IndexState<i64, NodeId>,
    done: Set<int>,
    j: int,
) -> bool {
    match idx.slots[j] {
        Some(e) => {
            &&& e.payload.0 < t0.nodes.len()
            &&& e.payload.1 <= t0.generations[e.payload.0 as int]
            &&& if e.mark == Some(Mark::Removed) {
                !t0.alive(e.payload)
            } else {
                t0.alive(e.payload) && now.node(e.payload).index_key == Some(
                    Key(j as u32, e.generation),
                )
            }
        },
        None => true,
    }
}

/// At the start of a commit nothing is done.
pub proof fn lemma_mid_start(t0: TreeState, idx: IndexState<i64, NodeId>)
    requires
        t0.wf(),
        synced(t0, idx),
    ensures
        mid_commit(t0, t0, idx, Set::<int>::empty()),
{
    let none = Set::<int>::empty();
    assert forall|j: int| t0.occupied(j) implies #[trigger] key_mid(t0, t0, idx, none, j) by {
        assert(key_ok(t0, idx, j));
    }
    assert forall|j: int| 0 <= j < idx.slots.len() implies #[trigger] entry_mid(
        t0,
        t0,
        idx,
        none,
        j,
    ) by {
        assert(entry_ok(t0, idx, j));
    }
}

/// Bringing one more node up to date keeps what holds in the middle of a
/// commit.
///
/// The node in slot `s` is not done and its parent is. It gets the world
/// data `t0.derived(s)`; its entry is updated to the keys of its new world
/// bounds, or, where it had none, inserted.
pub proof fn lemma_mid_step(
    t0: TreeState,
    now: TreeState,
    idx: IndexState<i64, NodeId>,
    done: Set<int>,
    s: int,
    now2: TreeState,
    idx2: IndexState<i64, NodeId>,
)
    requires
        t0.wf(),
        idx.wf(),
        mid_commit(t0, now, idx, done),
        t0.occupied(s),
        !done.contains(s),
        t0.nodes[s]->0.parent matches Some(q) ==> done.contains(q.0 as int),
        t0.nodes[s]->0.index_key is None ==> idx.has_room(),
        ({
            let n = t0.nodes[s]->0;
            let aabb = keys_of_rect(t0.new_bounds(s));
            match n.index_key {
                Some(k) => idx2 == idx.update(k, aabb) && now2 == now.replace(
                    s,
                    updated(n, t0.derived(s), k),
                ),
                None => idx2 == idx.insert(aabb, t0.id_at(s)) && now2 == now.replace(
                    s,
                    updated(n, t0.derived(s), idx.next_key()),
                ),
            }
        }),
    ensures
        mid_commit(t0, now2, idx2, done.insert(s)),
        idx2.wf(),
{
    let n = t0.nodes[s]->0;
    let aabb = keys_of_rect(t0.new_bounds(s));
    let done2 = done.insert(s);
    assert(node_mid(t0, now, done, s));
    assert(key_mid(t0, now, idx, done, s));
    assert(now.nodes[s] == t0.nodes[s]);
    match n.index_key {
        Some(k) => {
            idx.lemma_update_wf(k, aabb);
            let e = idx.lookup(k)->0;
            let kj = k.0 as int;
            assert forall|j: int| 0 <= j < t0.nodes.len() implies #[trigger] node_mid(
                t0,
                now2,
                done2,
                j,
            ) by {
                assert(node_mid(t0, now, done, j));
            }
            assert forall|j: int| t0.occupied(j) implies #[trigger] key_mid(
                t0,
                now2,
                idx2,
                done2,
                j,
            ) by {
                assert(key_mid(t0, now, idx, done, j));
                assert(node_mid(t0, now, done, j));
                if j != s {
                    match now.nodes[j]->0.index_key {
                        Some(k2) => {
                            // Another node's key names another slot.
                            assert(entry_mid(t0, now, idx, done, k2.0 as int));
                            assert(entry_mid(t0, now, idx, done, kj));
                            assert(t0.nodes[j]->0.generation == t0.generations[j]);
                        },
                        None => {},
                    }
                }
            }
            assert forall|j: int| 0 <= j < idx2.slots.len() implies #[trigger] entry_mid(
                t0,
                now2,
                idx2,
                done2,
                j,
            ) by {
                assert(entry_mid(t0, now, idx, done, j));
                match idx.slots[j] {
                    Some(e2) => {
                        if e2.mark != Some(Mark::Removed) {
                            let pj = e2.payload.0 as int;
                            assert(node_mid(t0, now, done, pj));
                            if pj == s {
                                assert(t0.nodes[s]->0.generation == t0.generations[s]);
                            }
                        }
                    },
                    None => {},
                }
            }
        },
        None => {
            idx.lemma_insert_wf(aabb, t0.id_at(s));
            let key = idx.next_key();
            let kj = key.0 as int;
            assert forall|j: int| 0 <= j < t0.nodes.len() implies #[trigger] node_mid(
                t0,
                now2,
                done2,
                j,
            ) by {
                assert(node_mid(t0, now, done, j));
            }
            assert forall|j: int| t0.occupied(j) implies #[trigger] key_mid(
                t0,
                now2,
                idx2,
                done2,
                j,
            ) by {
                assert(key_mid(t0, now, idx, done, j));
                assert(node_mid(t0, now, done, j));
                if j != s {
                    match now.nodes[j]->0.index_key {
                        Some(k2) => {
                            assert(idx.lookup(k2) is Some);
                            assert(k2.0 as int != kj);
                        },
                        None => {},
                    }
                }
            }
            assert forall|j: int| 0 <= j < idx2.slots.len() implies #[trigger] entry_mid(
                t0,
                now2,
                idx2,
                done2,
                j,
            ) by {
                if j != kj {
                    assert(idx2.slots[j] == idx.slots[j]);
                    assert(entry_mid(t0, now, idx, done, j));
                    match idx.slots[j] {
                        Some(e2) => {
                            if e2.mark != Some(Mark::Removed) {
                                let pj = e2.payload.0 as int;
                                assert(node_mid(t0, now, done, pj));
                                if pj == s {
                                    assert(t0.nodes[s]->0.generation == t0.generations[s]);
                                }
                            }
                        },
                        None => {},
                    }
                } else {
                    assert(t0.nodes[s]->0.generation == t0.generations[s]);
                }
            }
        },
    }
}

/// Once every node is done, committing the index leaves the tree and the
/// index in agreement, with the index settled.
pub proof fn lemma_mid_end(
    t0: TreeState,
    now: TreeState,
    idx: IndexState<i64, NodeId>,
    done: Set<int>,
)
    requires
        t0.wf(),
        idx.wf(),
        mid_commit(t0, now, idx, done),
        forall|j: int| t0.occupied(j) ==> done.contains(j),
    ensures
        t0.committed(now),
        now.wf(),
        idx.commit().wf(),
        idx.commit().settled(),
        synced(now, idx.commit()),
        forall|j: int|
            0 <= j < idx.commit().slots.len() ==> (#[trigger] idx.commit().slots[j] matches Some(e)
                ==> e.mark is None),
{
    let c = idx.commit();
    idx.lemma_commit();
    assert forall|j: int| 0 <= j < t0.nodes.len() implies match t0.nodes[j] {
        Some(n) => {
            &&& (#[trigger] now.nodes[j]) matches Some(m)
            &&& m.index_key matches Some(k)
            &&& m == updated(n, t0.derived(j), k)
            &&& n.index_key is Some ==> n.index_key == m.index_key
        },
        None => now.nodes[j] is None,
    } by {
        assert(node_mid(t0, now, done, j));
    }
    assert(now.wf()) by {
        assert forall|i: int| now.occupied(i) <==> t0.occupied(i) by {
            if 0 <= i < t0.nodes.len() {
                assert(node_mid(t0, now, done, i));
            }
        }
        assert forall|i: int| now.occupied(i) implies (#[trigger] now.nodes[i])->0.generation
            == now.generations[i] && now.generations[i] >= 1 by {
            assert(node_mid(t0, now, done, i));
            assert(t0.nodes[i]->0.generation == t0.generations[i]);
        }
        assert forall|k: int| 0 <= k < now.free.len() implies {
            let f = #[trigger] now.free[k];
            &&& f < now.nodes.len()
            &&& now.nodes[f as int] is None
            &&& now.generations[f as int] < u32::MAX
        } by {
            let f = t0.free[k];
            assert(t0.nodes[f as int] is None);
            assert(node_mid(t0, now, done, f as int));
        }
        assert forall|i: int| now.occupied(i) implies #[trigger] now.parent_ok(i) by {
            assert(node_mid(t0, now, done, i));
            assert(t0.parent_ok(i));
            match t0.nodes[i]->0.parent {
                Some(q) => {
                    assert(node_mid(t0, now, done, q.0 as int));
                },
                None => {},
            }
        }
        assert forall|i: int| now.occupied(i) implies #[trigger] now.children_ok(i) by {
            assert(node_mid(t0, now, done, i));
            assert(t0.children_ok(i));
            let kids = t0.nodes[i]->0.children;
            assert forall|k: int| 0 <= k < kids.len() implies {
                let ch = #[trigger] kids[k];
                &&& now.alive(ch)
                &&& now.node(ch).parent == Some(now.id_at(i))
            } by {
                let ch = kids[k];
                assert(t0.alive(ch));
                assert(node_mid(t0, now, done, ch.0 as int));
            }
        }
    }
    assert forall|i: int| now.occupied(i) implies #[trigger] key_ok(now, c, i) by {
        assert(node_mid(t0, now, done, i));
        assert(t0.occupied(i));
        assert(key_mid(t0, now, idx, done, i));
        let k = now.nodes[i]->0.index_key->0;
        assert(c.slots[k.0 as int] == settle(idx.slots[k.0 as int]));
    }
    assert forall|j: int| 0 <= j < c.slots.len() implies #[trigger] entry_ok(now, c, j) by {
        assert(c.slots[j] == settle(idx.slots[j]));
        assert(entry_mid(t0, now, idx, done, j));
        match idx.slots[j] {
            Some(e) => {
                if e.mark != Some(Mark::Removed) {
                    assert(node_mid(t0, now, done, e.payload.0 as int));
                }
            },
            None => {},
        }
    }
    assert forall|j: int| 0 <= j < c.slots.len() implies (#[trigger] c.slots[j] matches Some(e)
        ==> e.mark is None) by {
        assert(c.slots[j] == settle(idx.slots[j]));
    }
}

/// In the middle of a commit the links are those of the start.
pub proof fn lemma_mid_links(
    t0: TreeState,
    now: TreeState,
    idx: IndexState<i64, NodeId>,
    done: Set<int>,
)
    requires
        t0.wf(),
        mid_commit(t0, now, idx, done),
    ensures
        now.wf(),
        forall|j: int| now.occupied(j) <==> t0.occupied(j),
        forall|j: int|
            t0.occupied(j) ==> (#[trigger] now.nodes[j])->0.parent == t0.nodes[j]->0.parent
                && now.nodes[j]->0.children == t0.nodes[j]->0.children && now.id_at(j)
                == t0.id_at(j),
{
    assert forall|i: int| now.occupied(i) <==> t0.occupied(i) by {
        if 0 <= i < t0.nodes.len() {
            assert(node_mid(t0, now, done, i));
        }
    }
    assert forall|j: int| t0.occupied(j) implies (#[trigger] now.nodes[j])->0.parent
        == t0.nodes[j]->0.parent && now.nodes[j]->0.children == t0.nodes[j]->0.children
        && now.id_at(j) == t0.id_at(j) by {
        assert(node_mid(t0, now, done, j));
    }
    assert forall|i: int| now.occupied(i) implies (#[trigger] now.nodes[i])->0.generation
        == now.generations[i] && now.generations[i] >= 1 by {
        assert(node_mid(t0, now, done, i));
        assert(t0.nodes[i]->0.generation == t0.generations[i]);
    }
    assert forall|k: int| 0 <= k < now.free.len() implies {
        let f = #[trigger] now.free[k];
        &&& f < now.nodes.len()
        &&& now.nodes[f as int] is None
        &&& now.generations[f as int] < u32::MAX
    } by {
        let f = t0.free[k];
        assert(t0.nodes[f as int] is None);
        assert(node_mid(t0, now, done, f as int));
    }
    assert forall|i: int| now.occupied(i) implies #[trigger] now.parent_ok(i) by {
        assert(node_mid(t0, now, done, i));
        assert(t0.parent_ok(i));
        match t0.nodes[i]->0.parent {
            Some(q) => {
                assert(node_mid(t0, now, done, q.0 as int));
            },
            None => {},
        }
    }
    assert forall|i: int| now.occupied(i) implies #[trigger] now.children_ok(i) by {
        assert(node_mid(t0, now, done, i));
        assert(t0.children_ok(i));
        let kids = t0.nodes[i]->0.children;
        assert forall|k: int| 0 <= k < kids.len() implies {
            let ch = #[trigger] kids[k];
            &&& now.alive(ch)
            &&& now.node(ch).parent == Some(now.id_at(i))
        } by {
            let ch = kids[k];
            assert(t0.alive(ch));
            assert(node_mid(t0, now, done, ch.0 as int));
        }
    }
}

/// Two arenas with the same links have the same subtrees.
pub proof fn lemma_under_same(t0: TreeState, now: TreeState, r: int, j: int, fuel: nat)
    requires
        forall|x: int| now.occupied(x) <==> t0.occupied(x),
        forall|x: int|
            t0.occupied(x) ==> (#[trigger] now.nodes[x])->0.parent == t0.nodes[x]->0.parent,
    ensures
        now.under(r, j, fuel) == t0.under(r, j, fuel),
    decreases fuel,
{
    if j != r && fuel > 0 && t0.occupied(j) {
        match t0.nodes[j]->0.parent {
            Some(p) => {
                lemma_under_same(t0, now, r, p.0 as int, (fuel - 1) as nat);
            },
            None => {},
        }
    }
}

/// The damage of one node: its old and its new world bounds where its box
/// changes, each unless degenerate.
pub open spec fn node_part(t0: TreeState, s: int) -> Seq<kurbo::Rect> {
    if t0.moves(s) {
        let old = if keys_of_rect(t0.old_bounds(s)).degenerate() {
            Seq::<kurbo::Rect>::empty()
        } else {
            seq![t0.old_bounds(s)]
        };
        if keys_of_rect(t0.new_bounds(s)).degenerate() {
            old
        } else {
            old.push(t0.new_bounds(s))
        }
    } else {
        Seq::empty()
    }
}

/// What the index damage covers for one node: its new world bounds where
/// it enters the index, its old and new ones where its box changes.
pub open spec fn index_part(t0: TreeState, s: int) -> Seq<kurbo::Rect> {
    if t0.nodes[s]->0.index_key is None {
        seq![t0.new_bounds(s)]
    } else if t0.moves(s) {
        seq![t0.old_bounds(s), t0.new_bounds(s)]
    } else {
        Seq::empty()
    }
}

/// The world bounds that a commit derives for slot `j` are the bounding
/// box of the local bounds where no clip is in force. Where one is, and
/// all coordinates are numbers, their keys are those of the box met with
/// the clip.
pub open spec fn bounds_meet_clip(st: TreeState, j: int) -> bool {
    let d = st.derived(j);
    let bbox = bbox_of(d.world_transform, st.nodes[j]->0.local.local_bounds);
    match d.world_clip {
        Some(c) => numbers(rect_keys(bbox)) && numbers(rect_keys(c)) ==> rect_keys(d.world_bounds)
            == met_keys(rect_keys(bbox), rect_keys(c)),
        None => d.world_bounds == bbox,
    }
}

/// The bounding box from which a commit derives the world bounds of slot
/// `j`, where it is a rectangle of numbers, holds the image under the
/// node's world transform of every corner of the node's local bounds.
pub open spec fn box_holds_corners(st: TreeState, j: int) -> bool {
    let d = st.derived(j);
    let local_bounds = st.nodes[j]->0.local.local_bounds;
    let bbox = bbox_of(d.world_transform, local_bounds);
    numbers(rect_keys(bbox)) ==> holds_corner_images(d.world_transform, local_bounds, bbox)
}

/// The meet of two rectangles holds every point that both hold, edges
/// included: clipping takes nothing from the bounds that lies within the
/// clip.
pub proof fn lemma_meet_holds_common(
    a: (i64, i64, i64, i64),
    b: (i64, i64, i64, i64),
    x: i64,
    y: i64,
)
    requires
        a.0 <= x <= a.2 && a.1 <= y <= a.3,
        b.0 <= x <= b.2 && b.1 <= y <= b.3,
    ensures
        met_keys(a, b).0 <= x <= met_keys(a, b).2,
        met_keys(a, b).1 <= y <= met_keys(a, b).3,
{
}

/// The damage of the nodes in the slots `order`, one node after the other.
pub open spec fn node_rects(t0: TreeState, order: Seq<usize>) -> Seq<kurbo::Rect>
    decreases order.len(),
{
    if order.len() == 0 {
        Seq::empty()
    } else {
        node_rects(t0, order.drop_last()) + node_part(t0, order.last() as int)
    }
}

/// What the index damage covers for the nodes in the slots `order`, one
/// node after the other.
pub open spec fn index_rects(t0: TreeState, order: Seq<usize>) -> Seq<kurbo::Rect>
    decreases order.len(),
{
    if order.len() == 0 {
        Seq::empty()
    } else {
        index_rects(t0, order.drop_last()) + index_part(t0, order.last() as int)
    }
}

/// Whether some slot of the index has damage to report.
pub open spec fn restless(idx: IndexState<i64, NodeId>) -> bool {
    exists|j: int| 0 <= j < idx.slots.len() && !quiet(#[trigger] idx.slots[j])
}

/// Whether some entry of the index is marked removed.
pub open spec fn has_removed(idx: IndexState<i64, NodeId>) -> bool {
    exists|j: int| 0 <= j < idx.slots.len() && is_removed(#[trigger] idx.slots[j])
}

/// Whether a slot holds an entry marked removed.
pub open spec fn is_removed(slot: Option<crate::index::state::Entry<i64, NodeId>>) -> bool {
    slot matches Some(e) && e.mark == Some(Mark::Removed)
}

/// Membership in a concatenation.
pub proof fn lemma_concat_contains<A>(a: Seq<A>, b: Seq<A>)
    ensures
        forall|x: A| (a + b).contains(x) <==> a.contains(x) || b.contains(x),
{
    let all = a + b;
    assert forall|x: A| all.contains(x) implies a.contains(x) || b.contains(x) by {
        let w = choose|w: int| 0 <= w < all.len() && all[w] == x;
        if w < a.len() {
            assert(a[w] == x);
        } else {
            assert(b[w - a.len()] == x);
        }
    }
    assert forall|x: A| a.contains(x) || b.contains(x) implies all.contains(x) by {
        if a.contains(x) {
            let w = choose|w: int| 0 <= w < a.len() && a[w] == x;
            assert(all[w] == x);
        } else {
            let w = choose|w: int| 0 <= w < b.len() && b[w] == x;
            assert(all[a.len() + w] == x);
        }
    }
}

/// What the damage of one node holds.
pub proof fn lemma_node_part(t0: TreeState, s: int)
    ensures
        forall|rect: kurbo::Rect|
            node_part(t0, s).contains(rect) <==> t0.moves(s) && ((rect == t0.old_bounds(s)
                && !keys_of_rect(t0.old_bounds(s)).degenerate()) || (rect == t0.new_bounds(s)
                && !keys_of_rect(t0.new_bounds(s)).degenerate())),
{
    let part = node_part(t0, s);
    let old = t0.old_bounds(s);
    let new = t0.new_bounds(s);
    assert forall|rect: kurbo::Rect|
        part.contains(rect) <==> t0.moves(s) && ((rect == old && !keys_of_rect(old).degenerate())
            || (rect == new && !keys_of_rect(new).degenerate())) by {
        if part.contains(rect) {
            let w = choose|w: int| 0 <= w < part.len() && part[w] == rect;
            assert(part[w] == rect);
        }
        if t0.moves(s) {
            if rect == old && !keys_of_rect(old).degenerate() {
                assert(part[0] == rect);
            }
            if rect == new && !keys_of_rect(new).degenerate() {
                assert(part[part.len() - 1] == rect);
            }
        }
    }
}

/// What the index damage covers for one node.
pub proof fn lemma_index_part(t0: TreeState, s: int)
    ensures
        forall|rect: kurbo::Rect|
            index_part(t0, s).contains(rect) <==> if t0.nodes[s]->0.index_key is None {
                rect == t0.new_bounds(s)
            } else {
                t0.moves(s) && (rect == t0.old_bounds(s) || rect == t0.new_bounds(s))
            },
{
    let part = index_part(t0, s);
    assert forall|rect: kurbo::Rect|
        part.contains(rect) <==> if t0.nodes[s]->0.index_key is None {
            rect == t0.new_bounds(s)
        } else {
            t0.moves(s) && (rect == t0.old_bounds(s) || rect == t0.new_bounds(s))
        } by {
        if part.contains(rect) {
            let w = choose|w: int| 0 <= w < part.len() && part[w] == rect;
            assert(part[w] == rect);
        }
        if part.len() > 0 {
            assert(part[0] == part[0]);
            assert(part[part.len() - 1] == part[part.len() - 1]);
            if rect == t0.new_bounds(s) {
                assert(part[part.len() - 1] == rect);
            }
            if part.len() == 2 && rect == t0.old_bounds(s) {
                assert(part[0] == rect);
            }
        }
    }
}

/// Appending the damage of one more node extends the set of node damage
/// by exactly that.
pub proof fn lemma_damage_step(t0: TreeState, done: Set<int>, s: int, rects: Seq<kurbo::Rect>)
    requires
        t0.occupied(s),
        !done.contains(s),
        forall|rect: kurbo::Rect| #[trigger] rects.contains(rect) <==> t0.node_damage(done, rect),
    ensures
        forall|rect: kurbo::Rect|
            #[trigger] (rects + node_part(t0, s)).contains(rect) <==> t0.node_damage(
                done.insert(s),
                rect,
            ),
{
    let part = node_part(t0, s);
    let done2 = done.insert(s);
    lemma_concat_contains(rects, part);
    lemma_node_part(t0, s);
    assert forall|rect: kurbo::Rect|
        (rects + part).contains(rect) <==> t0.node_damage(done2, rect) by {
        assert(rects.contains(rect) <==> t0.node_damage(done, rect));
        assert((rects + part).contains(rect) <==> rects.contains(rect) || part.contains(rect));
        if t0.node_damage(done2, rect) {
            let j = choose|j: int|
                #![trigger done2.contains(j)]
                done2.contains(j) && t0.occupied(j) && t0.moves(j) && ((rect == t0.old_bounds(j)
                    && !keys_of_rect(t0.old_bounds(j)).degenerate()) || (rect == t0.new_bounds(j)
                    && !keys_of_rect(t0.new_bounds(j)).degenerate()));
            if j != s {
                assert(done.contains(j));
                assert(t0.node_damage(done, rect));
            } else {
                assert(part.contains(rect));
            }
        }
        if t0.node_damage(done, rect) {
            let j = choose|j: int|
                #![trigger done.contains(j)]
                done.contains(j) && t0.occupied(j) && t0.moves(j) && ((rect == t0.old_bounds(j)
                    && !keys_of_rect(t0.old_bounds(j)).degenerate()) || (rect == t0.new_bounds(j)
                    && !keys_of_rect(t0.new_bounds(j)).degenerate()));
            assert(done2.contains(j));
            assert(t0.node_damage(done2, rect));
        }
        if part.contains(rect) {
            assert(done2.contains(s));
            assert(t0.node_damage(done2, rect));
        }
    }
}

/// Appending what the index damage covers for one more node extends the
/// set of covered rectangles by exactly that.
pub proof fn lemma_index_damage_step(
    t0: TreeState,
    staged: Seq<kurbo::Rect>,
    done: Set<int>,
    s: int,
    rects: Seq<kurbo::Rect>,
)
    requires
        t0.occupied(s),
        !done.contains(s),
        forall|rect: kurbo::Rect|
            #[trigger] rects.contains(rect) <==> staged.contains(rect) || t0.index_damage(
                done,
                rect,
            ),
    ensures
        forall|rect: kurbo::Rect|
            #[trigger] (rects + index_part(t0, s)).contains(rect) <==> staged.contains(rect)
                || t0.index_damage(done.insert(s), rect),
{
    let part = index_part(t0, s);
    let done2 = done.insert(s);
    lemma_concat_contains(rects, part);
    lemma_index_part(t0, s);
    assert forall|rect: kurbo::Rect|
        (rects + part).contains(rect) <==> staged.contains(rect) || t0.index_damage(
            done2,
            rect,
        ) by {
        assert(rects.contains(rect) <==> staged.contains(rect) || t0.index_damage(done, rect));
        assert((rects + part).contains(rect) <==> rects.contains(rect) || part.contains(rect));
        if t0.index_damage(done2, rect) {
            let j = choose|j: int|
                #![trigger done2.contains(j)]
                done2.contains(j) && t0.occupied(j) && if t0.nodes[j]->0.index_key is None {
                    rect == t0.new_bounds(j)
                } else {
                    t0.moves(j) && (rect == t0.old_bounds(j) || rect == t0.new_bounds(j))
                };
            if j != s {
                assert(done.contains(j));
                assert(t0.index_damage(done, rect));
            } else {
                assert(part.contains(rect));
            }
        }
        if t0.index_damage(done, rect) {
            let j = choose|j: int|
                #![trigger done.contains(j)]
                done.contains(j) && t0.occupied(j) && if t0.nodes[j]->0.index_key is None {
                    rect == t0.new_bounds(j)
                } else {
                    t0.moves(j) && (rect == t0.old_bounds(j) || rect == t0.new_bounds(j))
                };
            assert(done2.contains(j));
            assert(t0.index_damage(done2, rect));
        }
        if part.contains(rect) {
            assert(done2.contains(s));
            assert(t0.index_damage(done2, rect));
        }
    }
}

/// Updating or inserting the entry of one node makes the index restless
/// exactly where the index damage covers something for the node.
pub proof fn lemma_restless_step(
    t0: TreeState,
    now: TreeState,
    idx: IndexState<i64, NodeId>,
    done: Set<int>,
    s: int,
    idx2: IndexState<i64, NodeId>,
)
    requires
        t0.wf(),
        idx.wf(),
        mid_commit(t0, now, idx, done),
        t0.occupied(s),
        !done.contains(s),
        t0.nodes[s]->0.index_key is None ==> idx.has_room(),
        ({
            let aabb = keys_of_rect(t0.new_bounds(s));
            match t0.nodes[s]->0.index_key {
                Some(k) => idx2 == idx.update(k, aabb),
                None => idx2 == idx.insert(aabb, t0.id_at(s)),
            }
        }),
    ensures
        restless(idx2) <==> restless(idx) || index_part(t0, s).len() > 0,
{
    let aabb = keys_of_rect(t0.new_bounds(s));
    assert(node_mid(t0, now, done, s));
    assert(key_mid(t0, now, idx, done, s));
    let kj = match t0.nodes[s]->0.index_key {
        Some(k) => k.0 as int,
        None => idx.next_key().0 as int,
    };
    if t0.nodes[s]->0.index_key is None {
        idx.lemma_insert_wf(aabb, t0.id_at(s));
    }
    assert(forall|j: int| 0 <= j < idx.slots.len() && j != kj ==> idx2.slots[j] == idx.slots[j]);
    assert(0 <= kj < idx2.slots.len());
    assert(kj < idx.slots.len() ==> quiet(idx.slots[kj])) by {
        if kj < idx.slots.len() {
            match t0.nodes[s]->0.index_key {
                Some(k) => {},
                None => {
                    if idx.free.len() > 0 {
                        assert(idx.free[idx.free.len() - 1] == idx.free.last());
                    }
                },
            }
        }
    }
    assert(!quiet(idx2.slots[kj]) <==> index_part(t0, s).len() > 0);
    if restless(idx2) {
        let j = choose|j: int| 0 <= j < idx2.slots.len() && !quiet(#[trigger] idx2.slots[j]);
        if j != kj {
            assert(!quiet(idx.slots[j]));
        }
    }
    if restless(idx) {
        let j = choose|j: int| 0 <= j < idx.slots.len() && !quiet(#[trigger] idx.slots[j]);
        assert(j != kj);
        assert(!quiet(idx2.slots[j]));
    }
    if index_part(t0, s).len() > 0 {
        assert(!quiet(idx2.slots[kj]));
    }
}

} // verus!
