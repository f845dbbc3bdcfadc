//! Moving a subtree under another parent: what it leaves of the arena,
//! and why the invariant survives it.

use crate::box_tree::removal::{lemma_outside_subtree, lemma_remove_value, without_child};
use crate::box_tree::state::{entry_ok, key_ok, synced, with_child, NodeView, TreeState};
use crate::box_tree::types::{Dirty, NodeId};
use crate::index::state::IndexState;
use vstd::prelude::*;

verus! {

impl TreeState {
    /// Whether `id` can be moved under `new_parent`: the new parent is
    /// live and is neither `id` nor one of its descendants.
    pub open spec fn can_reparent(self, id: NodeId, new_parent: Option<NodeId>) -> bool {
        match new_parent {
            Some(p) => self.alive(p) && !self.in_subtree(id.0 as int, p.0 as int),
            None => true,
        }
    }

    /// The depth that `id` has under `new_parent`.
    pub open spec fn depth_under(self, new_parent: Option<NodeId>) -> nat {
        match new_parent {
            Some(p) => self.depths[p.0 as int] + 1,
            None => 0,
        }
    }

    /// What slot `j` holds after a live `id` is moved under `new_parent`.
    ///
    /// The node `id` has the new parent. Every node of its subtree has all
    /// dirty flags set. The old parent loses `id` from its children, and
    /// the new parent has it appended at the end.
    pub open spec fn after_reparent(self, id: NodeId, new_parent: Option<NodeId>, j: int) -> Option<
        NodeView,
    > {
        match self.nodes[j] {
            Some(n) => {
                if j == id.0 {
                    Some(NodeView { parent: new_parent, dirty: Dirty::all(), ..n })
                } else if self.in_subtree(id.0 as int, j) {
                    Some(NodeView { dirty: Dirty::all(), ..n })
                } else {
                    let unlinked = if self.node(id).parent == Some(self.id_at(j)) {
                        without_child(n, id)
                    } else {
                        n
                    };
                    if new_parent == Some(self.id_at(j)) {
                        Some(with_child(unlinked, id))
                    } else {
                        Some(unlinked)
                    }
                }
            },
            None => None,
        }
    }

    /// The depth of slot `j` after a live `id` is moved under
    /// `new_parent`: the subtree of `id` moves as a whole.
    pub open spec fn depth_after_reparent(self, id: NodeId, new_parent: Option<NodeId>, j: int) -> nat {
        if self.in_subtree(id.0 as int, j) {
            (self.depths[j] - self.depths[id.0 as int] + self.depth_under(new_parent)) as nat
        } else {
            self.depths[j]
        }
    }

    /// `after` is the state that moving `id` under `new_parent` leaves. A
    /// stale `id` changes nothing.
    pub open spec fn reparented(self, id: NodeId, new_parent: Option<NodeId>, after: TreeState) -> bool {
        if !self.alive(id) {
            after == self
        } else {
            &&& after.nodes.len() == self.nodes.len()
            &&& after.generations == self.generations
            &&& after.free == self.free
            &&& after.depths.len() == self.depths.len()
            &&& forall|j: int|
                0 <= j < self.nodes.len() ==> #[trigger] after.nodes[j] == self.after_reparent(
                    id,
                    new_parent,
                    j,
                )
            &&& forall|j: int|
                0 <= j < self.nodes.len() ==> #[trigger] after.depths[j]
                    == self.depth_after_reparent(id, new_parent, j)
        }
    }

    /// Moving a subtree keeps the invariant and every identifier.
    pub proof fn lemma_reparented(self, id: NodeId, new_parent: Option<NodeId>, after: TreeState)
        requires
            self.wf(),
            self.can_reparent(id, new_parent),
            self.reparented(id, new_parent, after),
        ensures
            after.wf(),
            forall|other: NodeId| after.alive(other) <==> self.alive(other),
            forall|j: int| after.occupied(j) <==> self.occupied(j),
            forall|j: int| self.occupied(j) ==> after.id_at(j) == self.id_at(j),
    {
        if self.alive(id) {
            let r = id.0 as int;
            assert(self.under(r, r, self.depths[r]));
            assert forall|j: int| after.occupied(j) <==> self.occupied(j) by {
                if 0 <= j < self.nodes.len() {
                    assert(after.nodes[j] == self.after_reparent(id, new_parent, j));
                }
            }
            assert forall|j: int| self.occupied(j) implies after.id_at(j) == self.id_at(j) by {
                assert(after.nodes[j] == self.after_reparent(id, new_parent, j));
            }
            assert forall|other: NodeId| after.alive(other) <==> self.alive(other) by {
                let j = other.0 as int;
                if 0 <= j < self.nodes.len() {
                    assert(after.nodes[j] == self.after_reparent(id, new_parent, j));
                }
            }
            assert forall|i: int| after.occupied(i) implies (#[trigger] after.nodes[i])->0.generation
                == after.generations[i] && after.generations[i] >= 1 by {
                assert(after.nodes[i] == self.after_reparent(id, new_parent, i));
                assert(self.nodes[i]->0.generation == self.generations[i]);
            }
            assert forall|k: int| 0 <= k < after.free.len() implies {
                let f = #[trigger] after.free[k];
                &&& f < after.nodes.len()
                &&& after.nodes[f as int] is None
                &&& after.generations[f as int] < u32::MAX
            } by {
                let f = self.free[k];
                assert(self.nodes[f as int] is None);
                assert(after.nodes[f as int] == self.after_reparent(id, new_parent, f as int));
            }
            lemma_outside_subtree(self, id, r);
            assert forall|i: int| after.occupied(i) implies #[trigger] after.parent_ok(i) by {
                self.lemma_parent_ok_after(id, new_parent, after, i);
            }
            assert forall|i: int| after.occupied(i) implies #[trigger] after.children_ok(i) by {
                self.lemma_children_ok_after(id, new_parent, after, i);
            }
        }
    }

    /// The parent link of slot `i` is consistent after a move.
    proof fn lemma_parent_ok_after(
        self,
        id: NodeId,
        new_parent: Option<NodeId>,
        after: TreeState,
        i: int,
    )
        requires
            self.wf(),
            self.alive(id),
            self.can_reparent(id, new_parent),
            self.reparented(id, new_parent, after),
            self.occupied(i),
        ensures
            after.parent_ok(i),
    {
        let r = id.0 as int;
        assert(self.under(r, r, self.depths[r]));
        assert(after.nodes[i] == self.after_reparent(id, new_parent, i));
        assert(after.depths[i] == self.depth_after_reparent(id, new_parent, i));
        assert(self.parent_ok(i));
        lemma_outside_subtree(self, id, i);
        if i == r {
            match new_parent {
                Some(p) => {
                    let pj = p.0 as int;
                    assert(after.nodes[pj] == self.after_reparent(id, new_parent, pj));
                    assert(after.depths[pj] == self.depth_after_reparent(id, new_parent, pj));
                    let kids = after.nodes[pj]->0.children;
                    assert(kids[kids.len() - 1] == id);
                },
                None => {},
            }
        } else {
            match self.nodes[i]->0.parent {
                Some(q) => {
                    let qj = q.0 as int;
                    assert(after.nodes[qj] == self.after_reparent(id, new_parent, qj));
                    assert(after.depths[qj] == self.depth_after_reparent(id, new_parent, qj));
                    assert(self.children_ok(qj));
                    lemma_outside_subtree(self, id, qj);
                    if self.in_subtree(r, i) {
                        self.lemma_parent_in_subtree(r, i);
                        self.lemma_under_depth(r, i, self.depths[i]);
                        self.lemma_under_depth(r, qj, self.depths[qj]);
                        assert(after.alive(q));
                        assert(after.node(q).children == self.node(q).children);
                        assert(after.id_at(i) == self.id_at(i));
                    } else {
                        if self.in_subtree(r, qj) {
                            self.lemma_child_in_subtree(r, qj, i);
                        }
                        let kids = self.nodes[qj]->0.children;
                        lemma_remove_value(kids, id);
                        assert(self.id_at(i) != id);
                        let unlinked = if self.node(id).parent == Some(self.id_at(qj)) {
                            kids.remove_value(id)
                        } else {
                            kids
                        };
                        assert(unlinked.contains(self.id_at(i)));
                        if new_parent == Some(self.id_at(qj)) {
                            let w = choose|w: int|
                                0 <= w < unlinked.len() && unlinked[w] == self.id_at(i);
                            assert(unlinked.push(id)[w] == self.id_at(i));
                        }
                    }
                },
                None => {},
            }
        }
    }

    /// The child links of slot `i` are consistent after a move.
    proof fn lemma_children_ok_after(
        self,
        id: NodeId,
        new_parent: Option<NodeId>,
        after: TreeState,
        i: int,
    )
        requires
            self.wf(),
            self.alive(id),
            self.can_reparent(id, new_parent),
            self.reparented(id, new_parent, after),
            self.occupied(i),
        ensures
            after.children_ok(i),
    {
        let r = id.0 as int;
        assert(self.under(r, r, self.depths[r]));
        assert(after.nodes[i] == self.after_reparent(id, new_parent, i));
        assert(self.children_ok(i));
        assert(self.parent_ok(r));
        lemma_outside_subtree(self, id, i);
        let kids = self.nodes[i]->0.children;
        let kids2 = after.nodes[i]->0.children;
        lemma_remove_value(kids, id);
        // `id` is among the old children of `i` only if `i` is its old parent.
        assert(kids.contains(id) ==> self.node(id).parent == Some(self.id_at(i))) by {
            if kids.contains(id) {
                let w = choose|w: int| 0 <= w < kids.len() && kids[w] == id;
                assert(self.node(kids[w]).parent == Some(self.id_at(i)));
            }
        }
        let is_new = !self.in_subtree(r, i) && new_parent == Some(self.id_at(i));
        let base = if !self.in_subtree(r, i) && self.node(id).parent == Some(self.id_at(i)) {
            kids.remove_value(id)
        } else {
            kids
        };
        assert(kids2 == if is_new {
            base.push(id)
        } else {
            base
        });
        assert(!base.contains(id) || self.in_subtree(r, i));
        assert(kids2.no_duplicates()) by {
            if is_new {
                assert forall|a: int, b: int|
                    0 <= a < kids2.len() && 0 <= b < kids2.len() && a != b implies kids2[a]
                    != kids2[b] by {
                    if a < base.len() && b < base.len() {
                        assert(base[a] != base[b]);
                    } else if a < base.len() {
                        assert(base.contains(base[a]));
                    } else if b < base.len() {
                        assert(base.contains(base[b]));
                    }
                }
            }
        }
        assert forall|k: int| 0 <= k < kids2.len() implies {
            let c = #[trigger] kids2[k];
            &&& after.alive(c)
            &&& after.node(c).parent == Some(after.id_at(i))
        } by {
            let c = kids2[k];
            let cj = c.0 as int;
            if is_new && k == base.len() {
                assert(c == id);
                assert(after.nodes[r] == self.after_reparent(id, new_parent, r));
            } else {
                assert(base[k] == c);
                assert(base.contains(c));
                assert(kids.contains(c));
                let w = choose|w: int| 0 <= w < kids.len() && kids[w] == c;
                assert(self.alive(kids[w]));
                assert(self.node(c).parent == Some(self.id_at(i)));
                assert(after.nodes[cj] == self.after_reparent(id, new_parent, cj));
                if c == id {
                    assert(self.in_subtree(r, i));
                } else if cj == r {
                    assert(self.nodes[r]->0.generation == self.generations[r]);
                }
            }
        }
    }
}

impl TreeState {
    /// What slot `j` holds once a live `id` is unlinked from its parent and
    /// linked under `new_parent`, before its subtree is marked dirty.
    pub open spec fn relinked(self, id: NodeId, new_parent: Option<NodeId>, j: int) -> Option<
        NodeView,
    > {
        match self.nodes[j] {
            Some(n) => {
                if j == id.0 {
                    Some(NodeView { parent: new_parent, ..n })
                } else {
                    let unlinked = if self.node(id).parent == Some(self.id_at(j)) {
                        without_child(n, id)
                    } else {
                        n
                    };
                    if new_parent == Some(self.id_at(j)) {
                        Some(with_child(unlinked, id))
                    } else {
                        Some(unlinked)
                    }
                }
            },
            None => None,
        }
    }

    /// What slot `j` holds while the subtree of `id` is marked dirty and
    /// the slots `done` are marked.
    pub open spec fn marking(
        self,
        id: NodeId,
        new_parent: Option<NodeId>,
        done: Set<int>,
        j: int,
    ) -> Option<NodeView> {
        match self.relinked(id, new_parent, j) {
            Some(n) => if done.contains(j) {
                Some(NodeView { dirty: Dirty::all(), ..n })
            } else {
                Some(n)
            },
            None => None,
        }
    }

    /// Marking the whole subtree of `id` after relinking gives the state
    /// after the move.
    pub proof fn lemma_marking_done(self, id: NodeId, new_parent: Option<NodeId>, done: Set<int>, j: int)
        requires
            self.wf(),
            self.alive(id),
            self.can_reparent(id, new_parent),
            0 <= j < self.nodes.len(),
            forall|x: int| done.contains(x) <==> self.in_subtree(id.0 as int, x),
        ensures
            self.marking(id, new_parent, done, j) == self.after_reparent(id, new_parent, j),
    {
        let r = id.0 as int;
        assert(self.under(r, r, self.depths[r]));
        lemma_outside_subtree(self, id, j);
        if self.occupied(j) && self.in_subtree(r, j) && j != r {
            assert(self.nodes[j]->0.generation == self.generations[j]);
            assert(self.nodes[r]->0.generation == self.generations[r]);
        }
    }
}

/// A move leaves the tree and its index in agreement.
pub proof fn lemma_reparent_synced(
    tree: TreeState,
    id: NodeId,
    new_parent: Option<NodeId>,
    after: TreeState,
    index: IndexState<i64, NodeId>,
)
    requires
        tree.wf(),
        tree.can_reparent(id, new_parent),
        tree.reparented(id, new_parent, after),
        synced(tree, index),
    ensures
        synced(after, index),
{
    tree.lemma_reparented(id, new_parent, after);
    if tree.alive(id) {
        assert forall|i: int| after.occupied(i) implies #[trigger] key_ok(after, index, i) by {
            assert(after.nodes[i] == tree.after_reparent(id, new_parent, i));
            assert(key_ok(tree, index, i));
        }
        assert forall|j: int| 0 <= j < index.slots.len() implies #[trigger] entry_ok(
            after,
            index,
            j,
        ) by {
            assert(entry_ok(tree, index, j));
            match index.slots[j] {
                Some(e) => {
                    let pj = e.payload.0 as int;
                    assert(after.nodes[pj] == tree.after_reparent(id, new_parent, pj));
                },
                None => {},
            }
        }
    }
}

} // verus!
