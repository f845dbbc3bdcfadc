//! Removing a subtree: what it leaves of the arena, and why the invariant
//! survives it.

use crate::box_tree::state::{entry_ok, key_ok, synced, NodeView, TreeState};
use crate::box_tree::commit::{has_removed, is_removed, lemma_concat_contains};
use crate::index::state::{Entry, IndexState, Mark};
use crate::box_tree::types::NodeId;
use vstd::prelude::*;

verus! {

/// `n` without `id` among its children.
pub open spec fn without_child(n: NodeView, id: NodeId) -> NodeView {
    NodeView { children: n.children.remove_value(id), ..n }
}

/// Removing a value from a sequence without duplicates removes exactly
/// that value and keeps the rest distinct and in order.
pub proof fn lemma_remove_value<A>(s: Seq<A>, v: A)
    requires
        s.no_duplicates(),
    ensures
        s.remove_value(v).no_duplicates(),
        forall|x: A| s.remove_value(v).contains(x) <==> s.contains(x) && x != v,
        !s.contains(v) ==> s.remove_value(v) == s,
        s.contains(v) ==> s.remove_value(v).len() == s.len() - 1,
{
    s.index_of_first_ensures(v);
    match s.index_of_first(v) {
        Some(i) => {
            let t = s.remove(i);
            assert(t == s.remove_value(v));
            assert forall|a: int, b: int| 0 <= a < t.len() && 0 <= b < t.len() && a != b implies t[a]
                != t[b] by {
                let a2 = if a < i { a } else { a + 1 };
                let b2 = if b < i { b } else { b + 1 };
                assert(t[a] == s[a2]);
                assert(t[b] == s[b2]);
            }
            assert forall|x: A| t.contains(x) implies s.contains(x) && x != v by {
                let a = choose|a: int| 0 <= a < t.len() && t[a] == x;
                let a2 = if a < i { a } else { a + 1 };
                assert(t[a] == s[a2]);
                assert(s[a2] != s[i]);
            }
            assert forall|x: A| s.contains(x) && x != v implies t.contains(x) by {
                let a = choose|a: int| 0 <= a < s.len() && s[a] == x;
                if a < i {
                    assert(t[a] == x);
                } else {
                    assert(t[a - 1] == x);
                }
            }
        },
        None => {},
    }
}

impl TreeState {
    /// What slot `j` holds after the subtree of a live `id` is removed:
    /// nothing where it belonged to the subtree; the parent of `id` without
    /// `id` among its children; any other node as it was.
    pub open spec fn after_removal(self, id: NodeId, j: int) -> Option<NodeView> {
        if self.in_subtree(id.0 as int, j) {
            None
        } else if self.occupied(j) && self.node(id).parent == Some(self.id_at(j)) {
            Some(without_child(self.nodes[j]->0, id))
        } else {
            self.nodes[j]
        }
    }

    /// The slots of `order` that can be used again, in the same order:
    /// those whose generation counter is not exhausted.
    pub open spec fn reusable(self, order: Seq<usize>) -> Seq<usize>
        decreases order.len(),
    {
        if order.len() == 0 {
            Seq::empty()
        } else if self.generations[order.last() as int] < u32::MAX {
            self.reusable(order.drop_last()).push(order.last())
        } else {
            self.reusable(order.drop_last())
        }
    }

    /// `after` is the state that removing `id` leaves.
    ///
    /// A stale `id` changes nothing. Otherwise every node of the subtree of
    /// `id` is gone and `id` is taken from the children of its parent.
    /// Generations stay, so the identifiers of the removed nodes are stale
    /// for good. The slots of the subtree are appended to the free list in
    /// post-order, children before their parent and siblings in their
    /// order, but for those whose generation counter is exhausted. Each
    /// slot of the subtree is thus listed once.
    pub open spec fn removed(self, id: NodeId, after: TreeState) -> bool {
        if !self.alive(id) {
            after == self
        } else {
            &&& after.nodes.len() == self.nodes.len()
            &&& after.generations == self.generations
            &&& after.depths == self.depths
            &&& forall|j: int|
                0 <= j < self.nodes.len() ==> #[trigger] after.nodes[j] == self.after_removal(id, j)
            &&& after.free == self.free + self.reusable(
                self.post_order(id.0 as int, self.nodes.len()),
            )
        }
    }

    /// The reusable slots of an order are those of the order whose
    /// generation counter is not exhausted, each as often as in the order.
    pub proof fn lemma_reusable(self, order: Seq<usize>)
        ensures
            forall|x: usize|
                #![trigger self.reusable(order).contains(x)]
                #![trigger order.contains(x)]
                self.reusable(order).contains(x) <==> order.contains(x)
                    && self.generations[x as int] < u32::MAX,
            order.no_duplicates() ==> self.reusable(order).no_duplicates(),
        decreases order.len(),
    {
        if order.len() > 0 {
            let front = order.drop_last();
            let last = order.last();
            self.lemma_reusable(front);
            assert(order =~= front.push(last));
            crate::index::backends::flatvec::lemma_push_contains(front, last);
            crate::index::backends::flatvec::lemma_push_contains(self.reusable(front), last);
            assert forall|x: usize|
                #![trigger self.reusable(order).contains(x)]
                #![trigger order.contains(x)]
                self.reusable(order).contains(x) <==> order.contains(x)
                    && self.generations[x as int] < u32::MAX by {
                assert(order.contains(x) <==> front.contains(x) || x == last);
                assert(self.reusable(front).contains(x) <==> front.contains(x)
                    && self.generations[x as int] < u32::MAX);
                if self.generations[last as int] < u32::MAX {
                    assert(self.reusable(order) == self.reusable(front).push(last));
                    assert(self.reusable(order).contains(x) <==> self.reusable(front).contains(x)
                        || x == last);
                } else {
                    assert(self.reusable(order) == self.reusable(front));
                }
            }
            if order.no_duplicates() {
                assert(front.no_duplicates());
                assert(!front.contains(last)) by {
                    if front.contains(last) {
                        let w = choose|w: int| 0 <= w < front.len() && front[w] == last;
                        assert(order[w] == order[order.len() - 1]);
                    }
                }
                assert(!self.reusable(front).contains(last));
            }
        } else {
            assert forall|x: usize|
                #![trigger self.reusable(order).contains(x)]
                #![trigger order.contains(x)]
                self.reusable(order).contains(x) <==> order.contains(x)
                    && self.generations[x as int] < u32::MAX by {
                assert(self.reusable(order) =~= Seq::<usize>::empty());
            }
        }
    }

    /// What a removal does to the free list: the list grows at its end,
    /// by the slots of the subtree whose generation counter is not
    /// exhausted, each once.
    pub proof fn lemma_removed_free(self, id: NodeId, after: TreeState)
        requires
            self.wf(),
            self.alive(id),
            self.removed(id, after),
        ensures
            after.free.len() >= self.free.len(),
            after.free.take(self.free.len() as int) == self.free,
            after.free.no_duplicates(),
            forall|x: usize|
                after.free.contains(x) <==> self.free.contains(x) || (#[trigger] self.in_subtree(
                    id.0 as int,
                    x as int,
                ) && self.generations[x as int] < u32::MAX),
    {
        let order = self.post_order(id.0 as int, self.nodes.len());
        let gone = self.reusable(order);
        self.lemma_post_order(id.0 as int);
        self.lemma_reusable(order);
        assert(after.free.take(self.free.len() as int) =~= self.free);
        lemma_concat_contains(self.free, gone);
        assert forall|a: int, b: int|
            0 <= a < after.free.len() && 0 <= b < after.free.len() && a != b implies after.free[a]
            != after.free[b] by {
            let n = self.free.len();
            if a < n && b >= n {
                assert(gone.contains(gone[b - n]));
                assert(self.nodes[self.free[a] as int] is None);
                assert(self.in_subtree(id.0 as int, gone[b - n] as int));
            } else if b < n && a >= n {
                assert(gone.contains(gone[a - n]));
                assert(self.nodes[self.free[b] as int] is None);
                assert(self.in_subtree(id.0 as int, gone[a - n] as int));
            } else if a >= n && b >= n {
                assert(gone[a - n] != gone[b - n]);
            }
        }
    }

    /// A node of a subtree other than its root has its parent in the
    /// subtree.
    pub proof fn lemma_parent_in_subtree(self, r: int, j: int)
        requires
            self.wf(),
            self.in_subtree(r, j),
            j != r,
        ensures
            self.nodes[j]->0.parent is Some,
            self.in_subtree(r, self.parent_slot(j)),
    {
        assert(self.parent_ok(j));
    }

    /// A removal keeps the invariant. The removed identifiers are stale
    /// afterwards, and no other identifier changes.
    pub proof fn lemma_removed(self, id: NodeId, after: TreeState)
        requires
            self.wf(),
            self.removed(id, after),
        ensures
            after.wf(),
            !after.alive(id),
            self.alive(id) ==> forall|other: NodeId|
                after.alive(other) <==> self.alive(other) && !self.in_subtree(
                    id.0 as int,
                    other.0 as int,
                ),
            forall|j: int| after.occupied(j) ==> self.occupied(j) && after.id_at(j) == self.id_at(j),
    {
        if self.alive(id) {
            let r = id.0 as int;
            self.lemma_removed_free(id, after);
            assert(self.under(r, r, self.depths[r]));
            assert(self.in_subtree(r, r));
            assert forall|j: int| after.occupied(j) implies self.occupied(j) && after.id_at(j)
                == self.id_at(j) && !self.in_subtree(r, j) by {
                assert(after.nodes[j] == self.after_removal(id, j));
            }
            assert forall|other: NodeId|
                after.alive(other) <==> self.alive(other) && !self.in_subtree(
                    r,
                    other.0 as int,
                ) by {
                let j = other.0 as int;
                if 0 <= j < self.nodes.len() {
                    assert(after.nodes[j] == self.after_removal(id, j));
                }
            }
            assert forall|i: int| after.occupied(i) implies (#[trigger] after.nodes[i])->0.generation
                == after.generations[i] && after.generations[i] >= 1 by {
                assert(after.nodes[i] == self.after_removal(id, i));
                assert(self.nodes[i]->0.generation == self.generations[i]);
            }
            assert forall|k: int| 0 <= k < after.free.len() implies {
                let f = #[trigger] after.free[k];
                &&& f < after.nodes.len()
                &&& after.nodes[f as int] is None
                &&& after.generations[f as int] < u32::MAX
            } by {
                let f = after.free[k];
                assert(after.free.contains(f));
                if self.free.contains(f) {
                    let w = choose|w: int| 0 <= w < self.free.len() && self.free[w] == f;
                    assert(self.nodes[self.free[w] as int] is None);
                    assert(after.nodes[f as int] == self.after_removal(id, f as int));
                } else {
                    assert(self.in_subtree(r, f as int));
                    assert(after.nodes[f as int] == self.after_removal(id, f as int));
                }
            }
            assert forall|i: int| after.occupied(i) implies #[trigger] after.parent_ok(i) by {
                assert(after.nodes[i] == self.after_removal(id, i));
                assert(self.parent_ok(i));
                match self.nodes[i]->0.parent {
                    Some(q) => {
                        let qj = q.0 as int;
                        assert(after.nodes[qj] == self.after_removal(id, qj));
                        if self.in_subtree(r, qj) {
                            self.lemma_child_in_subtree(r, qj, i);
                        }
                        assert(self.children_ok(qj));
                        lemma_remove_value(self.nodes[qj]->0.children, id);
                        assert(self.id_at(i) != id);
                    },
                    None => {},
                }
            }
            assert forall|i: int| after.occupied(i) implies #[trigger] after.children_ok(i) by {
                assert(after.nodes[i] == self.after_removal(id, i));
                assert(self.children_ok(i));
                let kids = self.nodes[i]->0.children;
                let kids2 = after.nodes[i]->0.children;
                lemma_remove_value(kids, id);
                assert forall|k: int| 0 <= k < kids2.len() implies {
                    let c = #[trigger] kids2[k];
                    &&& after.alive(c)
                    &&& after.node(c).parent == Some(after.id_at(i))
                } by {
                    let c = kids2[k];
                    assert(kids2.contains(c));
                    assert(kids.contains(c));
                    let w = choose|w: int| 0 <= w < kids.len() && kids[w] == c;
                    assert(self.alive(kids[w]));
                    assert(self.node(c).parent == Some(self.id_at(i)));
                    let cj = c.0 as int;
                    if self.in_subtree(r, cj) {
                        if cj != r {
                            self.lemma_parent_in_subtree(r, cj);
                        } else {
                            assert(c == id);
                            assert(kids2 == kids.remove_value(id));
                        }
                    }
                    assert(after.nodes[cj] == self.after_removal(id, cj));
                    assert(self.parent_ok(cj));
                }
            }
        }
    }
}

/// The entry `e` marked removed.
pub open spec fn marked_removed(e: Entry<i64, NodeId>) -> Entry<i64, NodeId> {
    Entry {
        generation: e.generation,
        aabb: e.aabb,
        payload: e.payload,
        mark: Some(Mark::Removed),
        prev_aabb: e.prev_aabb,
    }
}

/// What index slot `j` holds once the settled entries of the nodes in the
/// slots `gone` are marked removed.
pub open spec fn slot_after_marking(
    before: IndexState<i64, NodeId>,
    gone: Set<int>,
    j: int,
) -> Option<Entry<i64, NodeId>> {
    match before.slots[j] {
        Some(e) => if e.mark is None && gone.contains(e.payload.0 as int) {
            Some(marked_removed(e))
        } else {
            Some(e)
        },
        None => None,
    }
}

/// `after` is `before` with the settled entries of the nodes in the slots
/// `gone` marked removed, and nothing else changed.
pub open spec fn index_marked(
    before: IndexState<i64, NodeId>,
    gone: Set<int>,
    after: IndexState<i64, NodeId>,
) -> bool {
    &&& after.generations == before.generations
    &&& after.free == before.free
    &&& after.boxes == before.boxes
    &&& after.slots.len() == before.slots.len()
    &&& forall|j: int|
        0 <= j < before.slots.len() ==> #[trigger] after.slots[j] == slot_after_marking(
            before,
            gone,
            j,
        )
}

/// The slots of the subtree of `id`.
pub open spec fn subtree_slots(tree: TreeState, id: NodeId) -> Set<int> {
    Set::new(|j: int| tree.in_subtree(id.0 as int, j))
}

/// After a subtree is removed and the entries of its nodes are marked
/// removed, the tree and its index agree again.
pub proof fn lemma_removal_synced(
    tree: TreeState,
    id: NodeId,
    after: TreeState,
    index0: IndexState<i64, NodeId>,
    index1: IndexState<i64, NodeId>,
)
    requires
        tree.wf(),
        tree.alive(id),
        tree.removed(id, after),
        synced(tree, index0),
        index_marked(index0, subtree_slots(tree, id), index1),
    ensures
        synced(after, index1),
{
    let r = id.0 as int;
    let gone = subtree_slots(tree, id);
    tree.lemma_removed(id, after);
    assert forall|i: int| after.occupied(i) implies #[trigger] key_ok(after, index1, i) by {
        assert(after.nodes[i] == tree.after_removal(id, i));
        assert(tree.occupied(i));
        assert(key_ok(tree, index0, i));
        match tree.nodes[i]->0.index_key {
            Some(k) => {
                let j = k.0 as int;
                assert(index1.slots[j] == slot_after_marking(index0, gone, j));
            },
            None => {},
        }
    }
    assert forall|j: int| 0 <= j < index1.slots.len() implies #[trigger] entry_ok(
        after,
        index1,
        j,
    ) by {
        assert(index1.slots[j] == slot_after_marking(index0, gone, j));
        assert(entry_ok(tree, index0, j));
        match index0.slots[j] {
            Some(e) => {
                let pj = e.payload.0 as int;
                assert(after.nodes[pj] == tree.after_removal(id, pj));
                if e.mark is None {
                    assert(tree.alive(e.payload));
                }
            },
            None => {},
        }
    }
}

/// Whether slot `j` occurs in `s`.
pub open spec fn in_seq(s: Seq<usize>, j: int) -> bool {
    exists|w: int| 0 <= w < s.len() && #[trigger] s[w] as int == j
}

/// The slots that occur in `s`.
pub open spec fn seq_slots(s: Seq<usize>) -> Set<int> {
    Set::new(|j: int| in_seq(s, j))
}

/// The slots of `order` whose node has an entry in the index, in the same
/// order.
pub open spec fn keyed_slots(tree: TreeState, order: Seq<usize>) -> Seq<int>
    decreases order.len(),
{
    if order.len() == 0 {
        Seq::empty()
    } else if tree.nodes[order.last() as int]->0.index_key is Some {
        keyed_slots(tree, order.drop_last()).push(order.last() as int)
    } else {
        keyed_slots(tree, order.drop_last())
    }
}

/// The world bounds, as of the last commit, of the nodes in the slots
/// `order`.
pub open spec fn bounds_at(tree: TreeState, order: Seq<int>) -> Seq<kurbo::Rect> {
    order.map_values(|x: int| tree.nodes[x]->0.world.world_bounds)
}

/// What slot `j` holds while the subtree of `id` is torn down and the
/// first `k` slots of `order` are done: nothing where it is done, the old
/// node where it is still to do, and elsewhere what the removal leaves.
pub open spec fn pending_slot(
    tree: TreeState,
    id: NodeId,
    order: Seq<usize>,
    k: int,
    j: int,
) -> Option<NodeView> {
    if in_seq(order.take(k), j) {
        None
    } else if in_seq(order, j) {
        tree.nodes[j]
    } else {
        tree.after_removal(id, j)
    }
}

/// Outside the subtree of a live `id`, a removal changes the parent of
/// `id` alone, which is outside the subtree.
pub proof fn lemma_outside_subtree(tree: TreeState, id: NodeId, j: int)
    requires
        tree.wf(),
        tree.alive(id),
        0 <= j < tree.nodes.len(),
    ensures
        tree.node(id).parent matches Some(p) ==> !tree.in_subtree(id.0 as int, p.0 as int),
        !tree.in_subtree(id.0 as int, j) ==> tree.after_removal(id, j) == if tree.node(id).parent
            matches Some(p) && p.0 == j {
            Some(without_child(tree.nodes[j]->0, id))
        } else {
            tree.nodes[j]
        },
{
    let r = id.0 as int;
    assert(tree.parent_ok(r));
    match tree.node(id).parent {
        Some(p) => {
            if tree.in_subtree(r, p.0 as int) {
                tree.lemma_under_depth(r, p.0 as int, tree.depths[p.0 as int]);
            }
        },
        None => {},
    }
}

/// Membership in a prefix that is one longer.
pub proof fn lemma_take_step(s: Seq<usize>, k: int)
    requires
        0 <= k < s.len(),
        s.no_duplicates(),
    ensures
        forall|j: int| in_seq(s.take(k + 1), j) <==> in_seq(s.take(k), j) || j == s[k] as int,
        !in_seq(s.take(k), s[k] as int),
        in_seq(s, s[k] as int),
        forall|j: int| in_seq(s.take(k), j) ==> in_seq(s, j),
{
    let a = s.take(k);
    let b = s.take(k + 1);
    assert forall|j: int| in_seq(b, j) implies in_seq(a, j) || j == s[k] as int by {
        let w = choose|w: int| 0 <= w < b.len() && #[trigger] b[w] as int == j;
        if w < k {
            assert(a[w] as int == j);
        }
    }
    assert forall|j: int| in_seq(a, j) || j == s[k] as int implies in_seq(b, j) by {
        if in_seq(a, j) {
            let w = choose|w: int| 0 <= w < a.len() && #[trigger] a[w] as int == j;
            assert(b[w] as int == j);
        } else {
            assert(b[k] as int == j);
        }
    }
    if in_seq(a, s[k] as int) {
        let w = choose|w: int| 0 <= w < a.len() && #[trigger] a[w] as int == s[k] as int;
        assert(s[w] == s[k]);
    }
    assert(s[k] as int == s[k] as int);
    assert forall|j: int| in_seq(a, j) implies in_seq(s, j) by {
        let w = choose|w: int| 0 <= w < a.len() && #[trigger] a[w] as int == j;
        assert(s[w] as int == j);
    }
}

/// After a removal some entry is marked removed exactly where one was
/// before or a removed node had an entry.
pub proof fn lemma_removal_marks(
    tree: TreeState,
    id: NodeId,
    index0: IndexState<i64, NodeId>,
    index1: IndexState<i64, NodeId>,
    keyed: Seq<int>,
)
    requires
        tree.wf(),
        tree.alive(id),
        synced(tree, index0),
        index_marked(index0, subtree_slots(tree, id), index1),
        forall|x: int|
            keyed.contains(x) <==> tree.in_subtree(id.0 as int, x) && tree.nodes[x]->0.index_key
                is Some,
    ensures
        has_removed(index1) <==> has_removed(index0) || keyed.len() > 0,
{
    let gone = subtree_slots(tree, id);
    if has_removed(index1) {
        let j = choose|j: int| 0 <= j < index1.slots.len() && is_removed(#[trigger] index1.slots[j]);
        assert(index1.slots[j] == slot_after_marking(index0, gone, j));
        if !is_removed(index0.slots[j]) {
            let e = index0.slots[j]->0;
            assert(entry_ok(tree, index0, j));
            let pj = e.payload.0 as int;
            assert(tree.in_subtree(id.0 as int, pj));
            assert(keyed.contains(pj));
        }
    }
    if has_removed(index0) {
        let j = choose|j: int| 0 <= j < index0.slots.len() && is_removed(#[trigger] index0.slots[j]);
        assert(index1.slots[j] == slot_after_marking(index0, gone, j));
        assert(is_removed(index1.slots[j]));
    }
    if keyed.len() > 0 {
        let x = keyed[0];
        assert(keyed.contains(x));
        assert(key_ok(tree, index0, x));
        let k = tree.nodes[x]->0.index_key->0;
        let j = k.0 as int;
        assert(index1.slots[j] == slot_after_marking(index0, gone, j));
        assert(gone.contains(x));
        assert(is_removed(index1.slots[j]));
    }
}

} // verus!
