//! Core tree implementation: structure, updates, queries.

use crate::box_tree::commit::{
    bounds_meet_clip, box_holds_corners, has_removed, index_part, index_rects, lemma_damage_step, lemma_index_damage_step,
    lemma_mid_end, lemma_mid_links, lemma_mid_start, lemma_mid_step, lemma_restless_step,
    lemma_under_same, mid_commit, node_mid, node_part, node_rects, restless,
};
use crate::box_tree::damage::{all_numbers, covers_all, Damage, join_rects};
use crate::box_tree::geometry::{
    affine_apply, affine_eq, affine_inverse, affine_mul, affine_same, identity_affine,
    rect_contains, rect_eq, rect_intersect, rect_same, rounded_contains, rounded_eq,
    rounded_rect_of, transform_rect_bbox, zero_rect,
};
use crate::box_tree::keys::{keys_of_point, keys_of_rect, point_to_keys, rect_to_aabb};
use crate::box_tree::query::{lemma_hit_is_node, lemma_index_finds};
use crate::box_tree::removal::{
    bounds_at, in_seq, keyed_slots, lemma_outside_subtree, lemma_take_step, pending_slot,
    seq_slots,
};
use crate::box_tree::state::{clip_same, entry_ok, key_ok, NodeView, synced, TreeState};
use crate::box_tree::types::{
    Dirty, Hit, id_is_newer, LocalNode, NodeFlags, NodeId, QueryFilter, WorldNode,
};
use crate::box_tree::order::{postorder, preorder};
use crate::box_tree::walk::parent_before;
use crate::index::backend::Backend;
use crate::index::backends::flatvec::FlatVec;
use crate::index::index::IndexGeneric;
use crate::index::state::{IndexState, Key};
use vstd::prelude::*;

verus! {

/// A node of the arena.
#[derive(Clone, Debug)]
pub struct Node {
    /// Generation of this occupant.
    pub generation: u32,
    /// The parent, or `None` for a root.
    pub parent: Option<NodeId>,
    /// The children, in sibling order.
    pub children: Vec<NodeId>,
    /// Geometry given by the author.
    pub local: LocalNode,
    /// Geometry derived at the last commit.
    pub world: WorldNode,
    /// What changed since the node was created.
    pub dirty: Dirty,
    /// The node's entry in the spatial index, once it has one.
    pub index_key: Option<Key>,
}

impl View for Node {
    type V = NodeView;

    open spec fn view(&self) -> NodeView {
        NodeView {
            generation: self.generation,
            parent: self.parent,
            children: self.children@,
            local: self.local,
            world: self.world,
            dirty: self.dirty,
            index_key: self.index_key,
        }
    }
}

/// Top-level region tree.
///
/// The type parameter `B` controls which spatial index backend is used; it
/// defaults to the flat vector backend.
///
/// Changes to local node data (bounds, transform, clip, flags, z) and to
/// the structure do not take effect at once. They are staged and applied
/// when [`Tree::commit`] is called, which recomputes world-space data and
/// synchronizes the spatial index. The index holds, for each node, the box
/// of integer keys of its world bounds; a backend that buckets coordinates,
/// as the grid does, buckets those keys, and its cell size is a distance
/// between keys.
pub struct Tree<B: Backend<i64> = FlatVec<i64>> {
    /// slots
    nodes: Vec<Option<Node>>,
    /// last generation per slot (persists across frees)
    generations: Vec<u32>,
    free_list: Vec<usize>,
    index: IndexGeneric<i64, NodeId, B>,
    /// World bounds whose boxes the index will report at the next commit.
    staged: Vec<kurbo::Rect>,
    depths: Ghost<Seq<nat>>,
}

/// The view of an optional node.
pub open spec fn view_of(n: Option<Node>) -> Option<NodeView> {
    match n {
        Some(n) => Some(n@),
        None => None,
    }
}

/// The views of the slots of an arena.
pub open spec fn views(nodes: Seq<Option<Node>>) -> Seq<Option<NodeView>> {
    Seq::new(nodes.len(), |i: int| view_of(nodes[i]))
}

impl<B: Backend<i64>> View for Tree<B> {
    type V = TreeState;

    closed spec fn view(&self) -> TreeState {
        TreeState {
            nodes: views(self.nodes@),
            generations: self.generations@,
            free: self.free_list@,
            depths: self.depths@,
        }
    }
}

impl Tree<FlatVec<i64>> {
    /// Create a new empty tree using the default backend.
    pub fn new() -> (r: Self)
        ensures
            r.wf(),
            r@ == TreeState::empty(),
            r.index_state() == IndexState::<i64, NodeId>::empty(),
            r.staged().len() == 0,
    {
        Self::with_backend(FlatVec::new())
    }
}

impl<B: Backend<i64>> Tree<B> {
    /// The state of the embedded index.
    pub closed spec fn index_state(&self) -> IndexState<i64, NodeId> {
        self.index@
    }

    /// The world bounds staged for the next commit's index damage.
    pub closed spec fn staged(&self) -> Seq<kurbo::Rect> {
        self.staged@
    }

    /// The invariant of a tree: that of its arena, that of its index, and
    /// their agreement.
    pub closed spec fn wf(&self) -> bool {
        &&& self@.wf()
        &&& self.index.wf()
        &&& synced(self@, self.index@)
        &&& self.staged@.len() > 0 <==> has_removed(self.index@)
    }

    /// What the invariant says of the arena and the index.
    pub proof fn lemma_wf(&self)
        requires
            self.wf(),
        ensures
            self@.wf(),
            self.index_state().wf(),
            synced(self@, self.index_state()),
    {
        self.index.lemma_wf();
    }

    /// Create a new tree with a specific backend, which must hold no boxes.
    pub fn with_backend(backend: B) -> (r: Self)
        requires
            backend.wf(),
            backend.boxes() == Map::<usize, crate::index::types::Aabb2D<i64>>::empty(),
        ensures
            r.wf(),
            r@ == TreeState::empty(),
            r.index_state() == IndexState::<i64, NodeId>::empty(),
            r.staged().len() == 0,
    {
        let r = Tree {
            nodes: Vec::new(),
            generations: Vec::new(),
            free_list: Vec::new(),
            index: IndexGeneric::with_backend(backend),
            staged: Vec::new(),
            depths: Ghost(Seq::empty()),
        };
        assert(r@.nodes =~= Seq::empty());
        assert(r@.generations =~= Seq::empty());
        assert(r@.free =~= Seq::empty());
        assert(!has_removed(r.index@));
        r
    }

    /// Returns true if `id` refers to a live node: its slot exists and
    /// holds a node of the identifier's generation.
    pub fn is_alive(&self, id: NodeId) -> (r: bool)
        ensures
            r == self@.alive(id),
    {
        let idx = id.idx();
        if idx < self.nodes.len() {
            match &self.nodes[idx] {
                Some(n) => n.generation == id.generation(),
                None => false,
            }
        } else {
            false
        }
    }

    /// Returns the z-index of a node if the identifier is live.
    pub fn z_index(&self, id: NodeId) -> (r: Option<i32>)
        ensures
            r == if self@.alive(id) {
                Some(self@.node(id).local.z_index)
            } else {
                None
            },
    {
        if !self.is_alive(id) {
            return None;
        }
        match &self.nodes[id.idx()] {
            Some(n) => Some(n.local.z_index),
            None => None,
        }
    }

    /// Returns the parent of a node if live, or `None` for roots or stale
    /// ids.
    pub fn parent_of(&self, id: NodeId) -> (r: Option<NodeId>)
        ensures
            r == if self@.alive(id) {
                self@.node(id).parent
            } else {
                None
            },
    {
        if !self.is_alive(id) {
            return None;
        }
        match &self.nodes[id.idx()] {
            Some(n) => n.parent,
            None => None,
        }
    }

    /// Returns the flags of a node if the identifier is live.
    pub fn flags(&self, id: NodeId) -> (r: Option<NodeFlags>)
        ensures
            r == if self@.alive(id) {
                Some(self@.node(id).local.flags)
            } else {
                None
            },
    {
        if !self.is_alive(id) {
            return None;
        }
        match &self.nodes[id.idx()] {
            Some(n) => Some(n.local.flags),
            None => None,
        }
    }

    /// Return the world transform for a live node as of the last commit.
    /// Returns `None` for stale identifiers.
    pub fn world_transform(&self, id: NodeId) -> (r: Option<kurbo::Affine>)
        ensures
            r == if self@.alive(id) {
                Some(self@.node(id).world.world_transform)
            } else {
                None
            },
    {
        if !self.is_alive(id) {
            return None;
        }
        match &self.nodes[id.idx()] {
            Some(n) => Some(n.world.world_transform),
            None => None,
        }
    }

    /// Return the world-space axis-aligned bounding box for a live node as
    /// of the last commit. Returns `None` for stale identifiers.
    pub fn world_bounds(&self, id: NodeId) -> (r: Option<kurbo::Rect>)
        ensures
            r == if self@.alive(id) {
                Some(self@.node(id).world.world_bounds)
            } else {
                None
            },
    {
        if !self.is_alive(id) {
            return None;
        }
        match &self.nodes[id.idx()] {
            Some(n) => Some(n.world.world_bounds),
            None => None,
        }
    }

    /// Get the children of a node, or an empty slice if the node is stale.
    pub fn children_of(&self, id: NodeId) -> (r: &[NodeId])
        ensures
            r@ == if self@.alive(id) {
                self@.node(id).children
            } else {
                Seq::<NodeId>::empty()
            },
    {
        if !self.is_alive(id) {
            return &[];
        }
        match &self.nodes[id.idx()] {
            Some(n) => n.children.as_slice(),
            None => &[],
        }
    }

    /// Whether [`Tree::insert`] can be given a slot.
    pub fn has_room(&self) -> (r: bool)
        ensures
            r == self@.has_room(),
    {
        self.free_list.len() > 0 || self.nodes.len() < u32::MAX as usize
    }

    /// Insert a new node as a child of `parent` (or as a root if `None`).
    /// A stale `parent` counts as none: the node becomes a root, and no
    /// node that has taken the slot of `parent` since gets it as a child.
    ///
    /// The returned [`NodeId`] becomes live immediately, but world-space
    /// data and the spatial index are only updated on the next call to
    /// [`Tree::commit`].
    pub fn insert(&mut self, parent: Option<NodeId>, local: LocalNode) -> (id: NodeId)
        requires
            old(self).wf(),
            old(self)@.has_room(),
        ensures
            final(self).wf(),
            old(self)@.inserted(old(self)@.live_parent(parent), local, id, final(self)@),
            final(self)@.alive(id),
            !old(self)@.alive(id),
            final(self).index_state() == old(self).index_state(),
            final(self).staged() == old(self).staged(),
    {
        let linked = match parent {
            Some(p) => if self.is_alive(p) {
                Some(p)
            } else {
                None
            },
            None => None,
        };
        let ghost before = self@;
        let ghost depth = match linked {
            Some(p) => before.depths[p.0 as int] + 1,
            None => 0nat,
        };
        let (idx, generation) = if let Some(idx) = self.free_list.pop() {
            assert(before.free[before.free.len() - 1] == idx);
            let generation = self.generations[idx] + 1;
            self.generations[idx] = generation;
            self.nodes[idx] = Some(Node::new(generation, local));
            proof {
                self.depths@ = self.depths@.update(idx as int, depth);
            }
            (idx, generation)
        } else {
            let generation = 1u32;
            self.nodes.push(Some(Node::new(generation, local)));
            self.generations.push(generation);
            proof {
                self.depths@ = self.depths@.push(depth);
            }
            (self.nodes.len() - 1, generation)
        };
        let id = NodeId::new(idx as u32, generation);
        if let Some(p) = linked {
            self.link_parent(id, p);
        }
        proof {
            let after = self@;
            assert(before.inserted(linked, local, id, after)) by {
                assert forall|j: int| 0 <= j < before.nodes.len() && j != idx implies
                    #[trigger] after.nodes[j] == if linked == Some(before.id_at(j))
                    && before.occupied(j) {
                    Some(crate::box_tree::state::with_child(before.nodes[j]->0, id))
                } else {
                    before.nodes[j]
                } by {
                    if linked == Some(before.id_at(j)) && before.occupied(j) {
                        assert(after.nodes[j]->0 =~= crate::box_tree::state::with_child(
                            before.nodes[j]->0,
                            id,
                        ));
                    }
                }
            }
            before.lemma_inserted(linked, local, id, after);
            assert(synced(after, self.index@)) by {
                assert forall|i: int| after.occupied(i) implies #[trigger] key_ok(
                    after,
                    self.index@,
                    i,
                ) by {
                    if i != idx {
                        assert(before.occupied(i));
                        assert(key_ok(before, self.index@, i));
                    }
                }
                assert forall|j: int| 0 <= j < self.index@.slots.len() implies #[trigger] entry_ok(
                    after,
                    self.index@,
                    j,
                ) by {
                    assert(entry_ok(before, self.index@, j));
                }
            }
        }
        id
    }

    /// Replacing a node's local geometry or dirty flags keeps the tree's
    /// invariant.
    proof fn lemma_local_change(&self, before: &Self, i: int)
        requires
            before.wf(),
            before@.occupied(i),
            self.index == before.index,
            self.staged == before.staged,
            self@.generations == before@.generations,
            self@.free == before@.free,
            self@.depths == before@.depths,
            self@.nodes.len() == before@.nodes.len(),
            forall|j: int| 0 <= j < before@.nodes.len() && j != i ==> self@.nodes[j] == before@.nodes[j],
            self@.nodes[i] is Some,
            self@.nodes[i]->0.generation == before@.nodes[i]->0.generation,
            self@.nodes[i]->0.parent == before@.nodes[i]->0.parent,
            self@.nodes[i]->0.children == before@.nodes[i]->0.children,
            self@.nodes[i]->0.world == before@.nodes[i]->0.world,
            self@.nodes[i]->0.index_key == before@.nodes[i]->0.index_key,
        ensures
            self.wf(),
            self@ == before@.replace(i, self@.nodes[i]->0),
    {
        let n = self@.nodes[i]->0;
        assert(self@.nodes =~= before@.replace(i, n).nodes);
        before@.lemma_replace(i, n);
        assert forall|k: int| self@.occupied(k) implies #[trigger] key_ok(self@, self.index@, k) by {
            assert(key_ok(before@, before.index@, k));
        }
        assert forall|j: int| 0 <= j < self.index@.slots.len() implies #[trigger] entry_ok(
            self@,
            self.index@,
            j,
        ) by {
            assert(entry_ok(before@, before.index@, j));
        }
    }

    /// Update local transform. A stale identifier, or a transform equal to
    /// the current one, changes nothing; otherwise the transform is stored
    /// and the node marked dirty for transform and index.
    pub fn set_local_transform(&mut self, id: NodeId, tf: kurbo::Affine)
        requires
            old(self).wf(),
        ensures
            final(self).wf(),
            final(self).index_state() == old(self).index_state(),
            final(self).staged() == old(self).staged(),
            final(self)@ == if old(self)@.alive(id) && !affine_same(
                old(self)@.node(id).local.local_transform,
                tf,
            ) {
                let n = old(self)@.node(id);
                old(self)@.replace(
                    id.0 as int,
                    NodeView {
                        local: LocalNode { local_transform: tf, ..n.local },
                        dirty: Dirty { transform: true, index: true, ..n.dirty },
                        ..n
                    },
                )
            } else {
                old(self)@
            },
    {
        if !self.is_alive(id) {
            return ;
        }
        let ghost before = *self;
        let idx = id.idx();
        let mut changed = false;
        match &mut self.nodes[idx] {
            Some(n) => {
                if !affine_eq(n.local.local_transform, tf) {
                    n.local.local_transform = tf;
                    n.dirty.transform = true;
                    n.dirty.index = true;
                    changed = true;
                }
            },
            None => {},
        }
        proof {
            if changed {
                self.lemma_local_change(&before, idx as int);
            } else {
                assert(self@.nodes =~= before@.nodes);
            }
        }
    }

    /// Update local clip. A stale identifier, or a clip equal to the
    /// current one, changes nothing; otherwise the clip is stored and the
    /// node marked dirty for clip and index.
    pub fn set_local_clip(&mut self, id: NodeId, clip: Option<kurbo::RoundedRect>)
        requires
            old(self).wf(),
        ensures
            final(self).wf(),
            final(self).index_state() == old(self).index_state(),
            final(self).staged() == old(self).staged(),
            final(self)@ == if old(self)@.alive(id) && !clip_same(
                old(self)@.node(id).local.local_clip,
                clip,
            ) {
                let n = old(self)@.node(id);
                old(self)@.replace(
                    id.0 as int,
                    NodeView {
                        local: LocalNode { local_clip: clip, ..n.local },
                        dirty: Dirty { clip: true, index: true, ..n.dirty },
                        ..n
                    },
                )
            } else {
                old(self)@
            },
    {
        if !self.is_alive(id) {
            return ;
        }
        let ghost before = *self;
        let idx = id.idx();
        let mut changed = false;
        match &mut self.nodes[idx] {
            Some(n) => {
                let same = match (n.local.local_clip, clip) {
                    (Some(x), Some(y)) => rounded_eq(x, y),
                    (None, None) => true,
                    _ => false,
                };
                if !same {
                    n.local.local_clip = clip;
                    n.dirty.clip = true;
                    n.dirty.index = true;
                    changed = true;
                }
            },
            None => {},
        }
        proof {
            if changed {
                self.lemma_local_change(&before, idx as int);
            } else {
                assert(self@.nodes =~= before@.nodes);
            }
        }
    }

    /// Update z index. A stale identifier, or the current z-index, changes
    /// nothing; otherwise the z-index is stored and the node marked dirty
    /// for z.
    pub fn set_z_index(&mut self, id: NodeId, z: i32)
        requires
            old(self).wf(),
        ensures
            final(self).wf(),
            final(self).index_state() == old(self).index_state(),
            final(self).staged() == old(self).staged(),
            final(self)@ == if old(self)@.alive(id) && old(self)@.node(id).local.z_index != z {
                let n = old(self)@.node(id);
                old(self)@.replace(
                    id.0 as int,
                    NodeView {
                        local: LocalNode { z_index: z, ..n.local },
                        dirty: Dirty { z: true, ..n.dirty },
                        ..n
                    },
                )
            } else {
                old(self)@
            },
    {
        if !self.is_alive(id) {
            return ;
        }
        let ghost before = *self;
        let idx = id.idx();
        let mut changed = false;
        match &mut self.nodes[idx] {
            Some(n) => {
                if n.local.z_index != z {
                    n.local.z_index = z;
                    n.dirty.z = true;
                    changed = true;
                }
            },
            None => {},
        }
        proof {
            if changed {
                self.lemma_local_change(&before, idx as int);
            } else {
                assert(self@.nodes =~= before@.nodes);
            }
        }
    }

    /// Update local bounds. A stale identifier, or bounds equal to the
    /// current ones, changes nothing; otherwise the bounds are stored and
    /// the node marked dirty for layout and index.
    pub fn set_local_bounds(&mut self, id: NodeId, bounds: kurbo::Rect)
        requires
            old(self).wf(),
        ensures
            final(self).wf(),
            final(self).index_state() == old(self).index_state(),
            final(self).staged() == old(self).staged(),
            final(self)@ == if old(self)@.alive(id) && !rect_same(
                old(self)@.node(id).local.local_bounds,
                bounds,
            ) {
                let n = old(self)@.node(id);
                old(self)@.replace(
                    id.0 as int,
                    NodeView {
                        local: LocalNode { local_bounds: bounds, ..n.local },
                        dirty: Dirty { layout: true, index: true, ..n.dirty },
                        ..n
                    },
                )
            } else {
                old(self)@
            },
    {
        if !self.is_alive(id) {
            return ;
        }
        let ghost before = *self;
        let idx = id.idx();
        let mut changed = false;
        match &mut self.nodes[idx] {
            Some(n) => {
                if !rect_eq(n.local.local_bounds, bounds) {
                    n.local.local_bounds = bounds;
                    n.dirty.layout = true;
                    n.dirty.index = true;
                    changed = true;
                }
            },
            None => {},
        }
        proof {
            if changed {
                self.lemma_local_change(&before, idx as int);
            } else {
                assert(self@.nodes =~= before@.nodes);
            }
        }
    }

    /// Update node flags. A stale identifier, or the current flags, changes
    /// nothing; otherwise the flags are stored and the node marked dirty
    /// for index.
    pub fn set_flags(&mut self, id: NodeId, flags: NodeFlags)
        requires
            old(self).wf(),
        ensures
            final(self).wf(),
            final(self).index_state() == old(self).index_state(),
            final(self).staged() == old(self).staged(),
            final(self)@ == if old(self)@.alive(id) && old(self)@.node(id).local.flags != flags {
                let n = old(self)@.node(id);
                old(self)@.replace(
                    id.0 as int,
                    NodeView {
                        local: LocalNode { flags, ..n.local },
                        dirty: Dirty { index: true, ..n.dirty },
                        ..n
                    },
                )
            } else {
                old(self)@
            },
    {
        if !self.is_alive(id) {
            return ;
        }
        let ghost before = *self;
        let idx = id.idx();
        let mut changed = false;
        match &mut self.nodes[idx] {
            Some(n) => {
                if n.local.flags.bits != flags.bits {
                    n.local.flags = flags;
                    n.dirty.index = true;
                    changed = true;
                }
            },
            None => {},
        }
        proof {
            if changed {
                self.lemma_local_change(&before, idx as int);
            } else {
                assert(self@.nodes =~= before@.nodes);
            }
        }
    }

    /// Take `id` out of the children of `parent`.
    fn drop_child(&mut self, id: NodeId, parent: NodeId)
        requires
            old(self)@.occupied(parent.0 as int),
        ensures
            final(self).nodes@.len() == old(self).nodes@.len(),
            final(self).generations == old(self).generations,
            final(self).free_list == old(self).free_list,
            final(self).index == old(self).index,
            final(self).staged == old(self).staged,
            final(self).depths == old(self).depths,
            forall|j: int|
                0 <= j < old(self).nodes@.len() && j != parent.0 ==> final(self).nodes@[j] == old(self).nodes@[j],
            final(self)@.nodes[parent.0 as int] == Some(
                crate::box_tree::removal::without_child(old(self)@.nodes[parent.0 as int]->0, id),
            ),
    {
        match &mut self.nodes[parent.idx()] {
            Some(p) => {
                let ghost kids = p.children@;
                let mut i: usize = 0;
                while i < p.children.len() && !(p.children[i].0 == id.0 && p.children[i].1 == id.1)
                    invariant
                        p.children@ == kids,
                        i <= kids.len(),
                        forall|k: int| 0 <= k < i ==> kids[k] != id,
                    decreases kids.len() - i,
                {
                    i += 1;
                }
                proof {
                    kids.index_of_first_ensures(id);
                }
                if i < p.children.len() {
                    p.children.remove(i);
                }
                assert(p.children@ == kids.remove_value(id));
            },
            None => {},
        }
    }

    /// Remove a node (and its subtree) from the tree.
    ///
    /// The nodes become stale immediately; their index entries are marked
    /// removed and leave the index on the next call to [`Tree::commit`],
    /// for which the world bounds of those nodes are staged. The subtree is
    /// taken in post-order: the slots are freed, and the bounds staged, for
    /// the children of a node first, in sibling order, and then for the
    /// node.
    pub fn remove(&mut self, id: NodeId)
        requires
            old(self).wf(),
        ensures
            final(self).wf(),
            old(self)@.removed(id, final(self)@),
            !final(self)@.alive(id),
            old(self)@.alive(id) ==> crate::box_tree::removal::index_marked(
                old(self).index_state(),
                crate::box_tree::removal::subtree_slots(old(self)@, id),
                final(self).index_state(),
            ),
            !old(self)@.alive(id) ==> final(self).index_state() == old(self).index_state()
                && final(self).staged() == old(self).staged(),
            old(self)@.alive(id) ==> final(self).staged() == old(self).staged() + bounds_at(
                old(self)@,
                keyed_slots(old(self)@, old(self)@.post_order(id.0 as int, old(self)@.nodes.len())),
            ),
    {
        if !self.is_alive(id) {
            return ;
        }
        let ghost before = *self;
        let ghost t0 = self@;
        let ghost i0 = self.index@;
        let ghost staged0 = self.staged@;
        let root = id.idx();
        proof {
            before.lemma_wf();
        }
        let order = postorder(&self.nodes, root, Ghost(t0));
        let parent = match &self.nodes[root] {
            Some(n) => n.parent,
            None => None,
        };
        if let Some(p) = parent {
            assert(t0.parent_ok(root as int));
            self.drop_child(id, p);
        }
        proof {
            assert forall|j: int| 0 <= j < t0.nodes.len() implies #[trigger] self@.nodes[j]
                == pending_slot(t0, id, order@, 0, j) by {
                lemma_outside_subtree(t0, id, j);
                if in_seq(order@, j) {
                    let w = choose|w: int| 0 <= w < order@.len() && order@[w] as int == j;
                    assert(order@.contains(order@[w]));
                }
                if t0.in_subtree(root as int, j) {
                    assert(order@.contains(j as usize));
                    let w = choose|w: int| 0 <= w < order@.len() && order@[w] == j as usize;
                    assert(order@[w] as int == j);
                }
            }
            assert(self.free_list@ =~= t0.free + t0.reusable(order@.take(0)));
            assert(self.staged@ == staged0 + bounds_at(t0, Seq::<int>::empty()));
            assert(seq_slots(order@.take(0)) =~= Set::<int>::empty()) by {
                assert forall|j: int| !in_seq(order@.take(0), j) by {}
            }
        }
        let ghost mut keyed: Seq<int> = Seq::empty();
        let mut k: usize = 0;
        while k < order.len()
            invariant
                before.wf(),
                t0 == before@,
                t0.wf(),
                synced(t0, i0),
                i0 == before.index@,
                staged0 == before.staged@,
                t0.alive(id),
                root == id.0,
                order@.no_duplicates(),
                forall|j: usize| order@.contains(j) <==> t0.in_subtree(root as int, j as int),
                k <= order.len(),
                self.nodes@.len() == t0.nodes.len(),
                self.generations@ == t0.generations,
                self.depths@ == t0.depths,
                forall|j: int|
                    0 <= j < t0.nodes.len() ==> #[trigger] self@.nodes[j] == pending_slot(
                        t0,
                        id,
                        order@,
                        k as int,
                        j,
                    ),
                self.free_list@ == t0.free + t0.reusable(order@.take(k as int)),
                self.index.wf(),
                i0.wf(),
                crate::box_tree::removal::index_marked(
                    i0,
                    seq_slots(order@.take(k as int)),
                    self.index@,
                ),
                keyed.no_duplicates(),
                forall|x: int|
                    keyed.contains(x) <==> in_seq(order@.take(k as int), x)
                        && t0.nodes[x]->0.index_key is Some,
                self.staged@ == staged0 + bounds_at(t0, keyed),
                keyed == keyed_slots(t0, order@.take(k as int)),
            decreases order.len() - k,
        {
            let s = order[k];
            let ghost done = order@.take(k as int);
            let ghost done2 = order@.take(k as int + 1);
            let ghost mid = self@;
            let ghost mid_index = self.index@;
            let ghost keyed0 = keyed;
            let ghost nk = t0.nodes[s as int]->0.index_key;
            proof {
                assert(order@.contains(s));
                assert(t0.in_subtree(root as int, s as int));
                lemma_take_step(order@, k as int);
                assert(in_seq(order@, s as int));
                assert(mid.nodes[s as int] == pending_slot(t0, id, order@, k as int, s as int));
                assert(mid.nodes[s as int] == t0.nodes[s as int]);
                assert(key_ok(t0, i0, s as int));
                assert(t0.nodes[s as int]->0.generation == t0.generations[s as int]);
            }
            let taken = self.nodes[s].take();
            match taken {
                Some(node) => {
                    assert(node@ == t0.nodes[s as int]->0);
                    if let Some(key) = node.index_key {
                        proof {
                            let j = key.0 as int;
                            assert(mid_index.slots[j]
                                == crate::box_tree::removal::slot_after_marking(
                                i0,
                                seq_slots(done),
                                j,
                            ));
                            assert(i0.lookup(key) is Some);
                            assert(i0.slots[j]->0.payload.0 == s);
                            assert(mid_index.lookup(key) == i0.lookup(key));
                        }
                        self.index.remove(key);
                        self.staged.push(node.world.world_bounds);
                        proof {
                            assert(bounds_at(t0, keyed.push(s as int)) == bounds_at(t0, keyed).push(
                                t0.nodes[s as int]->0.world.world_bounds,
                            ));
                            assert(!keyed.contains(s as int));
                            keyed = keyed.push(s as int);
                            assert(self.index@ == mid_index.remove(nk->0));
                        }
                    }
                },
                None => {},
            }
            proof {
                crate::index::backends::flatvec::lemma_push_contains(keyed0, s as int);
                assert(keyed == if nk is Some {
                    keyed0.push(s as int)
                } else {
                    keyed0
                });
                assert(self.index@ == if nk is Some {
                    mid_index.remove(nk->0)
                } else {
                    mid_index
                });
                assert(keyed.no_duplicates());
            }
            proof {
                assert(done2.drop_last() =~= done);
                assert(done2.last() == s);
            }
            if self.generations[s] < u32::MAX {
                self.free_list.push(s);
            }
            proof {
                assert(self.free_list@ =~= t0.free + t0.reusable(done2));
                assert(keyed == keyed_slots(t0, done2));
                let gone = seq_slots(done);
                let gone2 = seq_slots(done2);
                assert forall|j: int| 0 <= j < t0.nodes.len() implies #[trigger] self@.nodes[j]
                    == pending_slot(t0, id, order@, k as int + 1, j) by {
                    assert(mid.nodes[j] == pending_slot(t0, id, order@, k as int, j));
                }
                assert forall|j: int| 0 <= j < i0.slots.len() implies #[trigger] self.index@.slots[j]
                    == crate::box_tree::removal::slot_after_marking(i0, gone2, j) by {
                    assert(mid_index.slots[j] == crate::box_tree::removal::slot_after_marking(
                        i0,
                        gone,
                        j,
                    ));
                    assert(entry_ok(t0, i0, j));
                    assert(gone2.contains(s as int));
                    assert(!gone.contains(s as int));
                    match i0.slots[j] {
                        Some(e) => {
                            assert(gone2.contains(e.payload.0 as int) <==> gone.contains(
                                e.payload.0 as int,
                            ) || e.payload.0 == s);
                            if e.mark is None {
                                assert(t0.alive(e.payload));
                                if e.payload.0 == s {
                                    assert(e.payload == t0.id_at(s as int));
                                    assert(nk == Some(Key(j as u32, e.generation)));
                                    assert(mid_index.lookup(nk->0) == Some(e));
                                }
                            }
                            match nk {
                                Some(key) => {
                                    if key.0 == j {
                                        assert(i0.lookup(key) is Some);
                                    }
                                },
                                None => {},
                            }
                        },
                        None => {},
                    }
                }
                assert forall|x: int|
                    keyed.contains(x) <==> in_seq(done2, x) && t0.nodes[x]->0.index_key is Some by {
                    assert(keyed0.contains(x) <==> in_seq(done, x) && t0.nodes[x]->0.index_key
                        is Some);
                }
            }
            k += 1;
        }
        proof {
            assert(order@.take(order.len() as int) == order@);
            let after = self@;
            assert forall|j: int| in_seq(order@, j) <==> t0.in_subtree(root as int, j) by {
                if in_seq(order@, j) {
                    let w = choose|w: int| 0 <= w < order@.len() && order@[w] as int == j;
                    assert(order@.contains(order@[w]));
                }
                if t0.in_subtree(root as int, j) {
                    assert(order@.contains(j as usize));
                    let w = choose|w: int| 0 <= w < order@.len() && order@[w] == j as usize;
                    assert(order@[w] as int == j);
                }
            }
            assert forall|j: int| 0 <= j < t0.nodes.len() implies #[trigger] after.nodes[j]
                == t0.after_removal(id, j) by {
                assert(after.nodes[j] == pending_slot(t0, id, order@, order@.len() as int, j));
            }
            assert(t0.removed(id, after));
            assert(seq_slots(order@) =~= crate::box_tree::removal::subtree_slots(t0, id));
            t0.lemma_removed(id, after);
            crate::box_tree::removal::lemma_removal_synced(t0, id, after, i0, self.index@);
            crate::box_tree::removal::lemma_removal_marks(t0, id, i0, self.index@, keyed);
            assert(bounds_at(t0, keyed).len() == keyed.len());
            assert forall|x: int|
                keyed.contains(x) <==> before@.in_subtree(id.0 as int, x)
                    && before@.nodes[x]->0.index_key is Some by {
                assert(in_seq(order@, x) <==> t0.in_subtree(root as int, x));
                assert(keyed.contains(x) <==> in_seq(order@.take(order.len() as int), x)
                    && t0.nodes[x]->0.index_key is Some);
            }
            assert(self.staged() == old(self).staged() + bounds_at(t0, keyed));
        }
    }

    /// Whether `id` can be moved under `new_parent`: the new parent is
    /// live and is neither `id` nor one of its descendants.
    pub fn can_reparent(&self, id: NodeId, new_parent: Option<NodeId>) -> (r: bool)
        requires
            self.wf(),
            self@.alive(id),
        ensures
            r == self@.can_reparent(id, new_parent),
    {
        let p = match new_parent {
            Some(p) => p,
            None => {
                return true;
            },
        };
        if !self.is_alive(p) {
            return false;
        }
        proof {
            self.lemma_wf();
        }
        let ghost st = self@;
        let root = id.idx();
        let mut cur = p.idx();
        let ghost start = cur;
        loop
            invariant
                st == self@,
                st.wf(),
                st.occupied(cur as int),
                root == id.0,
                st.under(root as int, start as int, st.depths[start as int]) <==> st.under(
                    root as int,
                    cur as int,
                    st.depths[cur as int],
                ),
            ensures
                st.in_subtree(root as int, start as int) <==> cur == root,
            decreases st.depths[cur as int],
        {
            if cur == root {
                break ;
            }
            assert(st.parent_ok(cur as int));
            let up = match &self.nodes[cur] {
                Some(n) => n.parent,
                None => None,
            };
            match up {
                Some(q) => {
                    cur = q.idx();
                },
                None => {
                    break ;
                },
            }
        }
        cur != root
    }

    /// Append `id` to the children of `parent`.
    fn push_child(&mut self, id: NodeId, parent: NodeId)
        requires
            old(self)@.occupied(parent.0 as int),
        ensures
            final(self).nodes@.len() == old(self).nodes@.len(),
            final(self).generations == old(self).generations,
            final(self).free_list == old(self).free_list,
            final(self).index == old(self).index,
            final(self).staged == old(self).staged,
            final(self).depths == old(self).depths,
            forall|j: int|
                0 <= j < old(self).nodes@.len() && j != parent.0 ==> final(self).nodes@[j] == old(self).nodes@[j],
            final(self)@.nodes[parent.0 as int] == Some(
                crate::box_tree::state::with_child(old(self)@.nodes[parent.0 as int]->0, id),
            ),
    {
        match &mut self.nodes[parent.idx()] {
            Some(p) => {
                p.children.push(id);
            },
            None => {},
        }
    }

    /// Reparent `id` under `new_parent`.
    ///
    /// A stale `id` changes nothing, and neither does a stale
    /// `new_parent`. Otherwise the node is unlinked from its parent and
    /// appended to the children of the new one, or becomes a root, and its
    /// whole subtree is marked dirty. World-space data and the spatial
    /// index follow on the next call to [`Tree::commit`]. The new parent
    /// must not lie in the subtree of `id`.
    pub fn reparent(&mut self, id: NodeId, new_parent: Option<NodeId>)
        requires
            old(self).wf(),
            old(self)@.alive(id) ==> old(self)@.can_reparent(
                id,
                old(self)@.live_parent(new_parent),
            ),
        ensures
            final(self).wf(),
            if new_parent matches Some(p) && !old(self)@.alive(p) {
                final(self)@ == old(self)@
            } else {
                old(self)@.reparented(id, new_parent, final(self)@)
            },
            final(self).index_state() == old(self).index_state(),
            final(self).staged() == old(self).staged(),
    {
        if !self.is_alive(id) {
            return ;
        }
        match new_parent {
            Some(p) => {
                if !self.is_alive(p) {
                    return ;
                }
            },
            None => {},
        }
        let ghost before = *self;
        let ghost t0 = self@;
        proof {
            before.lemma_wf();
        }
        let root = id.idx();
        let order = preorder(&self.nodes, root, Ghost(t0));
        let old_parent = match &self.nodes[root] {
            Some(n) => n.parent,
            None => None,
        };
        proof {
            assert(t0.parent_ok(root as int));
            lemma_outside_subtree(t0, id, root as int);
            assert(t0.under(root as int, root as int, t0.depths[root as int]));
        }
        if let Some(p) = old_parent {
            self.drop_child(id, p);
        }
        match &mut self.nodes[root] {
            Some(n) => {
                n.parent = new_parent;
            },
            None => {},
        }
        if let Some(p) = new_parent {
            self.push_child(id, p);
        }
        proof {
            assert forall|j: int| 0 <= j < t0.nodes.len() implies #[trigger] self@.nodes[j]
                == t0.marking(id, new_parent, seq_slots(order@.take(0)), j) by {
                assert(!in_seq(order@.take(0), j));
                match new_parent {
                    Some(p) => {
                        assert(p.0 != root);
                    },
                    None => {},
                }
            }
        }
        let mut k: usize = 0;
        while k < order.len()
            invariant
                before.wf(),
                t0 == before@,
                t0.wf(),
                t0.alive(id),
                root == id.0,
                t0.can_reparent(id, new_parent),
                order@.no_duplicates(),
                forall|j: usize| order@.contains(j) <==> t0.in_subtree(root as int, j as int),
                k <= order.len(),
                self.nodes@.len() == t0.nodes.len(),
                self.generations@ == t0.generations,
                self.free_list@ == t0.free,
                self.depths@ == t0.depths,
                self.index == before.index,
                self.staged == before.staged,
                forall|j: int|
                    0 <= j < t0.nodes.len() ==> #[trigger] self@.nodes[j] == t0.marking(
                        id,
                        new_parent,
                        seq_slots(order@.take(k as int)),
                        j,
                    ),
            decreases order.len() - k,
        {
            let s = order[k];
            let ghost mid = self@;
            proof {
                assert(order@.contains(s));
                lemma_take_step(order@, k as int);
                assert(mid.nodes[s as int] == t0.marking(
                    id,
                    new_parent,
                    seq_slots(order@.take(k as int)),
                    s as int,
                ));
            }
            match &mut self.nodes[s] {
                Some(n) => {
                    n.dirty.layout = true;
                    n.dirty.transform = true;
                    n.dirty.clip = true;
                    n.dirty.z = true;
                    n.dirty.index = true;
                },
                None => {},
            }
            proof {
                assert forall|j: int| 0 <= j < t0.nodes.len() implies #[trigger] self@.nodes[j]
                    == t0.marking(id, new_parent, seq_slots(order@.take(k as int + 1)), j) by {
                    assert(mid.nodes[j] == t0.marking(
                        id,
                        new_parent,
                        seq_slots(order@.take(k as int)),
                        j,
                    ));
                }
            }
            k += 1;
        }
        proof {
            assert(order@.take(order.len() as int) == order@);
            let done = seq_slots(order@);
            assert forall|x: int| done.contains(x) <==> t0.in_subtree(root as int, x) by {
                if in_seq(order@, x) {
                    let w = choose|w: int| 0 <= w < order@.len() && order@[w] as int == x;
                    assert(order@.contains(order@[w]));
                }
                if t0.in_subtree(root as int, x) {
                    assert(order@.contains(x as usize));
                    let w = choose|w: int| 0 <= w < order@.len() && order@[w] == x as usize;
                    assert(order@[w] as int == x);
                }
            }
            let marked = self@;
            self.depths@ = Seq::new(
                t0.nodes.len(),
                |j: int| t0.depth_after_reparent(id, new_parent, j),
            );
            let after = self@;
            assert(after.nodes == marked.nodes);
            assert forall|j: int| 0 <= j < t0.nodes.len() implies #[trigger] after.nodes[j]
                == t0.after_reparent(id, new_parent, j) by {
                t0.lemma_marking_done(id, new_parent, done, j);
                assert(marked.nodes[j] == t0.marking(
                    id,
                    new_parent,
                    seq_slots(order@.take(k as int)),
                    j,
                ));
            }
            assert(t0.reparented(id, new_parent, after));
            t0.lemma_reparented(id, new_parent, after);
            assert(self.index.wf());
            crate::box_tree::reparent::lemma_reparent_synced(
                t0,
                id,
                new_parent,
                after,
                self.index@,
            );
        }
    }

    /// Whether a commit can give every node an index entry whose slot fits
    /// a key.
    pub open spec fn commit_room(&self) -> bool {
        self.index_state().slots.len() + self@.nodes.len() <= u32::MAX
    }

    /// Whether [`Tree::commit`] can be called.
    pub fn can_commit(&self) -> (r: bool)
        ensures
            r == self.commit_room(),
    {
        let slots = self.index.slot_count();
        let nodes = self.nodes.len();
        slots <= u32::MAX as usize && nodes <= u32::MAX as usize - slots
    }

    /// What a commit reports for a tree in this state: `dirty` is the
    /// damage of the nodes, `node_rects`, followed, where the index damage
    /// covers anything, by the join of what it covers, `covered`.
    ///
    /// The damage of the nodes is the old and the new world bounds of each
    /// node whose box changes, but for degenerate ones. The index damage
    /// covers the world bounds staged by removals, the new world bounds of
    /// each node that enters the index, and the old and new world bounds of
    /// each node whose box changes.
    pub open spec fn reports(
        &self,
        dirty: Seq<kurbo::Rect>,
        node_rects: Seq<kurbo::Rect>,
        covered: Seq<kurbo::Rect>,
    ) -> bool {
        let all = self@.occupied_slots();
        &&& dirty == node_rects + if covered.len() > 0 {
            seq![join_rects(covered)]
        } else {
            Seq::<kurbo::Rect>::empty()
        }
        &&& forall|rect: kurbo::Rect|
            #[trigger] node_rects.contains(rect) <==> self@.node_damage(all, rect)
        &&& forall|rect: kurbo::Rect|
            #[trigger] covered.contains(rect) <==> self.staged().contains(rect)
                || self@.index_damage(all, rect)
    }

    /// Bring the node in slot `s` up to date: derive its world data from
    /// its parent's, record damage where its box changes, and insert or
    /// update its index entry.
    #[verifier::rlimit(60)]
    fn touch(
        &mut self,
        s: usize,
        damage: &mut Damage,
        collected: &mut Vec<kurbo::Rect>,
        Ghost(t0): Ghost<TreeState>,
        Ghost(done): Ghost<Set<int>>,
    )
        requires
            t0.wf(),
            old(self).index.wf(),
            mid_commit(t0, old(self)@, old(self).index@, done),
            t0.occupied(s as int),
            !done.contains(s as int),
            t0.nodes[s as int]->0.parent matches Some(q) ==> done.contains(q.0 as int),
            old(self).index@.slots.len() < u32::MAX,
        ensures
            final(self).index.wf(),
            mid_commit(t0, final(self)@, final(self).index@, done.insert(s as int)),
            final(self).staged == old(self).staged,
            final(self).index@.slots.len() <= old(self).index@.slots.len() + 1,
            final(damage).dirty_rects@ == old(damage).dirty_rects@ + node_part(t0, s as int),
            final(collected)@ == old(collected)@ + index_part(t0, s as int),
            bounds_meet_clip(t0, s as int),
            box_holds_corners(t0, s as int),
            restless(final(self).index@) <==> restless(old(self).index@) || index_part(
                t0,
                s as int,
            ).len() > 0,
    {
        let ghost now = self@;
        let ghost idx = self.index@;
        proof {
            self.index.lemma_wf();
            assert(node_mid(t0, now, done, s as int));
            assert(now.nodes[s as int] == t0.nodes[s as int]);
            assert(t0.parent_ok(s as int));
            assert(t0.nodes[s as int]->0.generation == t0.generations[s as int]);
        }
        let (id, parent, local, old_bounds, key_opt) = match &self.nodes[s] {
            Some(nd) => (
                NodeId::new(s as u32, nd.generation),
                nd.parent,
                nd.local,
                nd.world.world_bounds,
                nd.index_key,
            ),
            None => vstd::pervasive::unreached(),
        };
        let (ptf, pclip) = match parent {
            Some(p) => {
                proof {
                    assert(node_mid(t0, now, done, p.0 as int));
                }
                match &self.nodes[p.idx()] {
                    Some(pn) => (Some(pn.world.world_transform), pn.world.world_clip),
                    None => vstd::pervasive::unreached(),
                }
            },
            None => (None, None),
        };
        let tf = match ptf {
            Some(t) => affine_mul(t, local.local_transform),
            None => local.local_transform,
        };
        let bounds0 = transform_rect_bbox(tf, local.local_bounds);
        let local_clip = match local.local_clip {
            Some(rr) => Some(transform_rect_bbox(tf, rounded_rect_of(rr))),
            None => None,
        };
        let world_clip = match (local_clip, pclip) {
            (Some(l), Some(p)) => Some(rect_intersect(l, p)),
            (Some(l), None) => Some(l),
            (None, Some(p)) => Some(p),
            (None, None) => None,
        };
        let world_bounds = match world_clip {
            Some(c) => rect_intersect(bounds0, c),
            None => bounds0,
        };
        let world = WorldNode { world_transform: tf, world_bounds, world_clip };
        assert(world == t0.derived(s as int));
        assert(bounds_meet_clip(t0, s as int));
        assert(box_holds_corners(t0, s as int));
        let old_keys = rect_to_aabb(old_bounds);
        let new_keys = rect_to_aabb(world_bounds);
        let moved = !old_keys.equals(&new_keys);
        assert(moved == t0.moves(s as int));
        if moved {
            if !old_keys.is_empty() {
                damage.dirty_rects.push(old_bounds);
            }
            if !new_keys.is_empty() {
                damage.dirty_rects.push(world_bounds);
            }
        }
        assert(damage.dirty_rects@ == old(damage).dirty_rects@ + node_part(t0, s as int));
        let key = match key_opt {
            Some(k) => {
                self.index.update(k, new_keys);
                if moved {
                    collected.push(old_bounds);
                    collected.push(world_bounds);
                }
                k
            },
            None => {
                let k = self.index.insert(new_keys, id);
                collected.push(world_bounds);
                k
            },
        };
        assert(collected@ == old(collected)@ + index_part(t0, s as int));
        match &mut self.nodes[s] {
            Some(nd) => {
                nd.world = world;
                nd.index_key = Some(key);
                nd.dirty = Dirty { layout: false, transform: false, clip: false, z: false, index: false };
            },
            None => {},
        }
        proof {
            let now2 = self@;
            let idx2 = self.index@;
            assert(idx2.slots.len() <= idx.slots.len() + 1);
            assert(now2.nodes =~= now.replace(
                s as int,
                crate::box_tree::commit::updated(t0.nodes[s as int]->0, t0.derived(s as int), key),
            ).nodes);
            lemma_mid_step(t0, now, idx, done, s as int, now2, idx2);
            lemma_restless_step(t0, now, idx, done, s as int, idx2);
        }
    }

    /// Run the batched update and return coarse damage.
    ///
    /// This recomputes world-space transforms, clips and bounds for all
    /// live nodes, root by root and parents before children, and
    /// synchronizes their boxes into the spatial index. A root's world
    /// transform is its local transform; any other node's is its parent's
    /// world transform times its local transform. A clip in force is the
    /// intersection of the node's own clip, taken to world space, with the
    /// inherited one; an absent clip contributes nothing. World bounds are
    /// the bounding box of the transformed local bounds, intersected with
    /// the clip in force.
    ///
    /// The nodes are taken root by root in slot order, each subtree in
    /// pre-order. The damage lists, in that order, the old and the new
    /// world bounds of each node whose box changes, and ends with the join
    /// of what the index damage covers, where it covers anything. Where
    /// all coordinates are numbers, that join covers the old and the new
    /// world bounds of every node whose box changes.
    pub fn commit(&mut self) -> (damage: Damage)
        requires
            old(self).wf(),
            old(self).commit_room(),
        ensures
            final(self).wf(),
            old(self)@.committed(final(self)@),
            final(self).staged().len() == 0,
            final(self).index_state().settled(),
            final(self).index_state().slots.len() <= old(self).index_state().slots.len() + old(
                self,
            )@.nodes.len(),
            old(self).reports(
                damage.dirty_rects@,
                node_rects(old(self)@, old(self)@.commit_order(old(self)@.nodes.len() as int)),
                old(self).staged() + index_rects(
                    old(self)@,
                    old(self)@.commit_order(old(self)@.nodes.len() as int),
                ),
            ),
            forall|j: int| old(self)@.occupied(j) ==> #[trigger] bounds_meet_clip(old(self)@, j),
            forall|j: int| old(self)@.occupied(j) ==> #[trigger] box_holds_corners(old(self)@, j),
            ({
                let covered = old(self).staged() + index_rects(
                    old(self)@,
                    old(self)@.commit_order(old(self)@.nodes.len() as int),
                );
                covered.len() > 0 && all_numbers(covered) ==> covers_all(
                    damage.dirty_rects@.last(),
                    covered,
                )
            }),
    {
        let ghost before = *self;
        let ghost t0 = self@;
        let ghost i0 = self.index@;
        let ghost staged0 = self.staged@;
        proof {
            before.lemma_wf();
            lemma_mid_start(t0, i0);
        }
        let mut damage = Damage::new();
        let mut collected: Vec<kurbo::Rect> = Vec::new();
        core::mem::swap(&mut collected, &mut self.staged);
        let ghost mut done = Set::<int>::empty();
        let ghost mut visited: Seq<usize> = Seq::empty();
        let n = self.nodes.len();
        let mut i: usize = 0;
        proof {
            assert(self@ == t0);
            assert forall|j: int| t0.occupied(j) implies (done.contains(j) <==> #[trigger] t0.top(
                j,
                t0.depths[j],
            ) < 0) by {
                t0.lemma_top(j, t0.depths[j]);
            }
            assert forall|rect: kurbo::Rect| !t0.node_damage(done, rect) by {}
            assert forall|rect: kurbo::Rect| !t0.index_damage(done, rect) by {}
            assert(restless(i0) <==> has_removed(i0)) by {
                if restless(i0) {
                    let j = choose|j: int|
                        0 <= j < i0.slots.len() && !crate::index::laws::quiet(
                            #[trigger] i0.slots[j],
                        );
                    assert(entry_ok(t0, i0, j));
                    assert(crate::box_tree::commit::is_removed(i0.slots[j]));
                }
                if has_removed(i0) {
                    let j = choose|j: int|
                        0 <= j < i0.slots.len() && crate::box_tree::commit::is_removed(
                            #[trigger] i0.slots[j],
                        );
                    assert(!crate::index::laws::quiet(i0.slots[j]));
                }
            }
        }
        while i < n
            invariant
                n == t0.nodes.len(),
                i <= n,
                t0.wf(),
                self.index.wf(),
                mid_commit(t0, self@, self.index@, done),
                self.staged@.len() == 0,
                visited.no_duplicates(),
                forall|k: int| 0 <= k < visited.len() ==> visited[k] < n,
                forall|x: int| done.contains(x) <==> in_seq(visited, x),
                visited == t0.commit_order(i as int),
                damage.dirty_rects@ == node_rects(t0, visited),
                collected@ == staged0 + index_rects(t0, visited),
                self.index@.slots.len() <= i0.slots.len() + visited.len(),
                i0.slots.len() + n <= u32::MAX,
                forall|j: int|
                    t0.occupied(j) ==> (done.contains(j) <==> #[trigger] t0.top(j, t0.depths[j])
                        < i),
                forall|j: int| done.contains(j) ==> t0.occupied(j),
                forall|j: int| done.contains(j) ==> #[trigger] bounds_meet_clip(t0, j),
                forall|j: int| done.contains(j) ==> #[trigger] box_holds_corners(t0, j),
                forall|rect: kurbo::Rect|
                    damage.dirty_rects@.contains(rect) <==> t0.node_damage(done, rect),
                forall|rect: kurbo::Rect|
                    #[trigger] collected@.contains(rect) <==> staged0.contains(rect)
                        || t0.index_damage(done, rect),
                collected@.len() > 0 <==> restless(self.index@),
            decreases n - i,
        {
            let is_root = match &self.nodes[i] {
                Some(nd) => nd.parent.is_none(),
                None => false,
            };
            let ghost now0 = self@;
            let ghost done_outer = done;
            proof {
                lemma_mid_links(t0, now0, self.index@, done);
                assert(node_mid(t0, now0, done, i as int));
            }
            if is_root {
                let order = preorder(&self.nodes, i, Ghost(now0));
                proof {
                    assert forall|j: usize| order@.contains(j) <==> t0.in_subtree(
                        i as int,
                        j as int,
                    ) by {
                        lemma_under_same(t0, now0, i as int, j as int, t0.depths[j as int]);
                    }
                    assert forall|k: int| 0 < k < order.len() implies #[trigger] parent_before(
                        t0,
                        order@,
                        k,
                    ) by {
                        assert(parent_before(now0, order@, k));
                        let m = choose|m: int|
                            0 <= m < k && now0.nodes[order@[k] as int]->0.parent == Some(
                                now0.id_at(#[trigger] order@[m] as int),
                            );
                        assert(order@.contains(order@[k]));
                        assert(order@.contains(order@[m]));
                    }
                    assert(t0.occupied(i as int));
                    assert(t0.nodes[i as int]->0.parent is None);
                    assert forall|x: int| done_outer.contains(x) implies !t0.in_subtree(
                        i as int,
                        x,
                    ) by {
                        if t0.in_subtree(i as int, x) {
                            t0.lemma_top(x, t0.depths[x]);
                            assert(t0.under(i as int, x, t0.depths[x]));
                            assert(t0.top(x, t0.depths[x]) == i);
                            assert(done_outer.contains(x) <==> t0.top(x, t0.depths[x]) < i);
                        }
                    }
                    assert(order@.take(0) =~= Seq::<usize>::empty());
                    assert forall|x: int| !in_seq(order@.take(0), x) by {}
                    t0.lemma_same_pre_order(now0, i as int, n as nat);
                    assert(visited =~= t0.commit_order(i as int) + order@.take(0));
                }
                let mut k: usize = 0;
                while k < order.len()
                    invariant
                        n == t0.nodes.len(),
                        i < n,
                        t0.wf(),
                        t0.occupied(i as int),
                        t0.nodes[i as int]->0.parent is None,
                        self.index.wf(),
                        mid_commit(t0, self@, self.index@, done),
                        self.staged@.len() == 0,
                        visited.no_duplicates(),
                        forall|k: int| 0 <= k < visited.len() ==> visited[k] < n,
                        forall|x: int| done.contains(x) <==> in_seq(visited, x),
                        visited == t0.commit_order(i as int) + order@.take(k as int),
                        order@ == t0.pre_order(i as int, n as nat),
                        damage.dirty_rects@ == node_rects(t0, visited),
                        collected@ == staged0 + index_rects(t0, visited),
                        self.index@.slots.len() <= i0.slots.len() + visited.len(),
                        i0.slots.len() + n <= u32::MAX,
                        forall|j: int| done.contains(j) ==> t0.occupied(j),
                forall|j: int| done.contains(j) ==> #[trigger] bounds_meet_clip(t0, j),
                forall|j: int| done.contains(j) ==> #[trigger] box_holds_corners(t0, j),
                        forall|rect: kurbo::Rect|
                            damage.dirty_rects@.contains(rect) <==> t0.node_damage(done, rect),
                        forall|rect: kurbo::Rect|
                            #[trigger] collected@.contains(rect) <==> staged0.contains(rect)
                                || t0.index_damage(done, rect),
                        collected@.len() > 0 <==> restless(self.index@),
                        k <= order.len(),
                        order@.no_duplicates(),
                        order.len() > 0,
                        order@[0] == i,
                        forall|j: usize|
                            order@.contains(j) <==> t0.in_subtree(i as int, j as int),
                        forall|k: int| 0 < k < order.len() ==> #[trigger] parent_before(
                            t0,
                            order@,
                            k,
                        ),
                        forall|x: int| done_outer.contains(x) ==> !t0.in_subtree(i as int, x),
                        forall|x: int|
                            done.contains(x) <==> done_outer.contains(x) || in_seq(
                                order@.take(k as int),
                                x,
                            ),
                    decreases order.len() - k,
                {
                    let s = order[k];
                    proof {
                        assert(order@.contains(s));
                        lemma_take_step(order@, k as int);
                        assert(!done.contains(s as int));
                        if k > 0 {
                            assert(parent_before(t0, order@, k as int));
                            let m = choose|m: int|
                                0 <= m < k && t0.nodes[order@[k as int] as int]->0.parent == Some(
                                    t0.id_at(#[trigger] order@[m] as int),
                                );
                            assert(order@.take(k as int)[m] == order@[m]);
                            assert(in_seq(order@.take(k as int), order@[m] as int));
                            assert(order@.contains(order@[m]));
                            assert(t0.id_at(order@[m] as int).0 == order@[m]);
                            assert(done.contains(order@[m] as int));
                        }
                        let grown = visited.push(s);
                        assert(!in_seq(visited, s as int));
                        assert forall|a: int, b: int|
                            0 <= a < grown.len() && 0 <= b < grown.len() && a != b implies grown[a]
                            != grown[b] by {
                            if a < visited.len() && b < visited.len() {
                                assert(visited[a] != visited[b]);
                            } else if a < visited.len() {
                                assert(visited[a] as int != s as int);
                            } else if b < visited.len() {
                                assert(visited[b] as int != s as int);
                            }
                        }
                        crate::box_tree::walk::lemma_bounded_distinct(grown, n as nat);
                        lemma_damage_step(t0, done, s as int, damage.dirty_rects@);
                        lemma_index_damage_step(t0, staged0, done, s as int, collected@);
                    }
                    self.touch(s, &mut damage, &mut collected, Ghost(t0), Ghost(done));
                    proof {
                        let done2 = done.insert(s as int);
                        let grown = visited.push(s);
                        assert forall|x: int| done2.contains(x) <==> in_seq(grown, x) by {
                            if in_seq(grown, x) {
                                let w = choose|w: int|
                                    0 <= w < grown.len() && #[trigger] grown[w] as int == x;
                                if w < visited.len() {
                                    assert(visited[w] as int == x);
                                }
                            }
                            if in_seq(visited, x) {
                                let w = choose|w: int|
                                    0 <= w < visited.len() && #[trigger] visited[w] as int == x;
                                assert(grown[w] as int == x);
                            }
                            if x == s as int {
                                assert(grown[visited.len() as int] as int == x);
                            }
                        }
                        assert(grown.drop_last() =~= visited);
                        assert(grown.last() == s);
                        assert(grown =~= t0.commit_order(i as int) + order@.take(k as int + 1));
                        assert(collected@ =~= staged0 + index_rects(t0, grown));
                        done = done2;
                        visited = grown;
                    }
                    k += 1;
                }
                proof {
                    assert(order@.take(order.len() as int) == order@);
                    assert(t0.is_root(i as int));
                    assert(visited == t0.commit_order(i as int + 1));
                    assert forall|j: int| t0.occupied(j) implies (done.contains(j)
                        <==> #[trigger] t0.top(j, t0.depths[j]) < i + 1) by {
                        t0.lemma_top(j, t0.depths[j]);
                        assert(done_outer.contains(j) <==> t0.top(j, t0.depths[j]) < i);
                        if in_seq(order@, j) {
                            let w = choose|w: int|
                                0 <= w < order@.len() && #[trigger] order@[w] as int == j;
                            assert(order@.contains(order@[w]));
                        }
                        if t0.in_subtree(i as int, j) {
                            assert(order@.contains(j as usize));
                            let w = choose|w: int| 0 <= w < order@.len() && order@[w] == j as usize;
                            assert(order@[w] as int == j);
                        }
                    }
                }
            } else {
                proof {
                    assert(!t0.is_root(i as int));
                    assert(visited == t0.commit_order(i as int + 1));
                    assert forall|j: int| t0.occupied(j) implies (done.contains(j)
                        <==> #[trigger] t0.top(j, t0.depths[j]) < i + 1) by {
                        t0.lemma_top(j, t0.depths[j]);
                    }
                }
            }
            i += 1;
        }
        let ghost now = self@;
        let ghost idx = self.index@;
        proof {
            assert forall|j: int| t0.occupied(j) implies done.contains(j) by {
                t0.lemma_top(j, t0.depths[j]);
            }
            self.index.lemma_wf();
            lemma_mid_end(t0, now, idx, done);
            idx.lemma_damage();
            idx.lemma_commit();
            crate::box_tree::walk::lemma_bounded_distinct(visited, n as nat);
        }
        let idx_damage = self.index.commit();
        let ghost from_nodes = damage.dirty_rects@;
        let quiet_index = idx_damage.is_empty();
        if !quiet_index {
            if let Some(u) = crate::box_tree::damage::union_of(&collected) {
                damage.dirty_rects.push(u);
            }
        }
        proof {
            assert(!has_removed(self.index@)) by {
                if has_removed(self.index@) {
                    let j = choose|j: int|
                        0 <= j < self.index@.slots.len() && crate::box_tree::commit::is_removed(
                            #[trigger] self.index@.slots[j],
                        );
                }
            }
            let all = t0.occupied_slots();
            assert(done =~= all);
            assert(collected@.len() > 0 <==> restless(idx));
            if collected@.len() > 0 {
                assert(damage.dirty_rects@ =~= from_nodes + seq![join_rects(collected@)]);
            } else {
                assert(damage.dirty_rects@ =~= from_nodes + Seq::<kurbo::Rect>::empty());
            }
            assert(old(self)@ == t0);
            assert(old(self).staged() == staged0);
            assert(quiet_index <==> crate::index::laws::nothing(idx.damage()));
            assert(quiet_index <==> !restless(idx)) by {
                if restless(idx) {
                    let j = choose|j: int|
                        0 <= j < idx.slots.len() && !crate::index::laws::quiet(
                            #[trigger] idx.slots[j],
                        );
                }
            }
            assert(visited == t0.commit_order(n as int));
            assert(old(self).reports(damage.dirty_rects@, from_nodes, collected@));
        }
        damage
    }

    /// Keep the payloads of `hits` that are live nodes with the flags the
    /// filter requires.
    fn filter_hits(&self, hits: &Vec<(Key, NodeId)>, filter: QueryFilter) -> (out: Vec<NodeId>)
        requires
            self.wf(),
            forall|k: int|
                0 <= k < hits.len() ==> self.index@.boxes.dom().contains(
                    (#[trigger] hits[k]).0.0 as usize,
                ) && hits[k] == self.index@.hit(hits[k].0.0 as usize),
            forall|a: int, b: int| 0 <= a < b < hits.len() ==> hits[a].0.0 != hits[b].0.0,
        ensures
            out@.no_duplicates(),
            forall|id: NodeId|
                #[trigger] out@.contains(id) <==> self@.alive(id) && self@.node(
                    id,
                ).local.flags.has_all(filter.required_flags) && exists|k: int|
                    0 <= k < hits.len() && (#[trigger] hits[k]).1 == id,
    {
        let mut out: Vec<NodeId> = Vec::new();
        let mut k: usize = 0;
        proof {
            self.lemma_wf();
        }
        while k < hits.len()
            invariant
                self.wf(),
                k <= hits.len(),
                forall|k: int|
                    0 <= k < hits.len() ==> self.index@.boxes.dom().contains(
                        (#[trigger] hits[k]).0.0 as usize,
                    ) && hits[k] == self.index@.hit(hits[k].0.0 as usize),
                forall|a: int, b: int| 0 <= a < b < hits.len() ==> hits[a].0.0 != hits[b].0.0,
                out@.no_duplicates(),
                forall|id: NodeId|
                    #[trigger] out@.contains(id) <==> self@.alive(id) && self@.node(
                        id,
                    ).local.flags.has_all(filter.required_flags) && exists|w: int|
                        0 <= w < k && (#[trigger] hits[w]).1 == id,
            decreases hits.len() - k,
        {
            let id = hits[k].1;
            let ghost prev = out@;
            let mut keep = false;
            if self.is_alive(id) {
                match &self.nodes[id.idx()] {
                    Some(n) => {
                        keep = filter.matches(n.local.flags);
                    },
                    None => {},
                }
            }
            if keep {
                proof {
                    self.lemma_wf();
                    if prev.contains(id) {
                        let w = choose|w: int| 0 <= w < k && (#[trigger] hits[w]).1 == id;
                        lemma_hit_is_node(self@, self.index@, hits[w].0.0 as usize);
                        lemma_hit_is_node(self@, self.index@, hits[k as int].0.0 as usize);
                    }
                }
                out.push(id);
            }
            proof {
                crate::index::backends::flatvec::lemma_push_contains(prev, id);
                assert forall|x: NodeId|
                    #[trigger] out@.contains(x) <==> self@.alive(x) && self@.node(
                        x,
                    ).local.flags.has_all(filter.required_flags) && exists|w: int|
                        0 <= w < k + 1 && (#[trigger] hits[w]).1 == x by {
                    assert(prev.contains(x) <==> self@.alive(x) && self@.node(
                        x,
                    ).local.flags.has_all(filter.required_flags) && exists|w: int|
                        0 <= w < k && (#[trigger] hits[w]).1 == x);
                    if exists|w: int| 0 <= w < k + 1 && (#[trigger] hits[w]).1 == x {
                        let w = choose|w: int| 0 <= w < k + 1 && (#[trigger] hits[w]).1 == x;
                        if w < k {
                            assert(hits[w].1 == x);
                        }
                    }
                    if exists|w: int| 0 <= w < k && (#[trigger] hits[w]).1 == x {
                        let w = choose|w: int| 0 <= w < k && (#[trigger] hits[w]).1 == x;
                        assert(0 <= w < k + 1 && hits[w].1 == x);
                    }
                    if x == id {
                        assert(hits[k as int].1 == x);
                    }
                }
            }
            k += 1;
        }
        out
    }

    /// List live nodes whose world-space bounds contain a world-space
    /// point.
    ///
    /// Edges of the bounding boxes are included. Nodes must satisfy the
    /// [`QueryFilter`]. The bounds are those of the last commit, and the
    /// nodes come in an unspecified order; no z-sorting is applied.
    pub fn containing_point(&self, point: kurbo::Point, filter: QueryFilter) -> (out: Vec<NodeId>)
        requires
            self.wf(),
        ensures
            out@.no_duplicates(),
            forall|id: NodeId|
                #[trigger] out@.contains(id) <==> self@.found_at(
                    id,
                    keys_of_point(point).0,
                    keys_of_point(point).1,
                    filter,
                ),
    {
        let (x, y) = point_to_keys(point);
        let hits = self.index.query_point(x, y);
        let out = self.filter_hits(&hits, filter);
        proof {
            self.lemma_wf();
            let boxes = self.index@.boxes;
            assert forall|id: NodeId| #[trigger] out@.contains(id) <==> self@.found_at(
                id,
                x,
                y,
                filter,
            ) by {
                if out@.contains(id) {
                    let k = choose|k: int| 0 <= k < hits.len() && (#[trigger] hits[k]).1 == id;
                    let j = hits[k].0.0 as usize;
                    lemma_hit_is_node(self@, self.index@, j);
                    assert(crate::index::backend::slots_containing(boxes, x, y).contains(j));
                }
                if self@.found_at(id, x, y, filter) {
                    lemma_index_finds(self@, self.index@, id, filter);
                    let key = self@.node(id).index_key->0;
                    let j = key.0 as usize;
                    assert(crate::index::backend::slots_containing(boxes, x, y).contains(j));
                    let k = choose|k: int| 0 <= k < hits.len() && (#[trigger] hits[k]).0.0 == j;
                    assert(hits[k].1 == id);
                }
            }
        }
        out
    }

    /// List live nodes whose world-space bounds intersect a world-space
    /// rectangle.
    ///
    /// Edges of the rectangle and of the bounding boxes are included: a
    /// rectangle and a bounding box that share an edge overlap. Nodes must
    /// satisfy the [`QueryFilter`]. The bounds are those of the last
    /// commit, and the nodes come in an unspecified order.
    pub fn intersect_rect(&self, rect: kurbo::Rect, filter: QueryFilter) -> (out: Vec<NodeId>)
        requires
            self.wf(),
        ensures
            out@.no_duplicates(),
            forall|id: NodeId|
                #[trigger] out@.contains(id) <==> self@.found_in(id, keys_of_rect(rect), filter),
    {
        let q = rect_to_aabb(rect);
        let hits = self.index.query_rect(q);
        let out = self.filter_hits(&hits, filter);
        proof {
            self.lemma_wf();
            let boxes = self.index@.boxes;
            assert forall|id: NodeId| #[trigger] out@.contains(id) <==> self@.found_in(
                id,
                q,
                filter,
            ) by {
                if out@.contains(id) {
                    let k = choose|k: int| 0 <= k < hits.len() && (#[trigger] hits[k]).1 == id;
                    let j = hits[k].0.0 as usize;
                    lemma_hit_is_node(self@, self.index@, j);
                    assert(crate::index::backend::slots_touching(boxes, q).contains(j));
                }
                if self@.found_in(id, q, filter) {
                    lemma_index_finds(self@, self.index@, id, filter);
                    let key = self@.node(id).index_key->0;
                    let j = key.0 as usize;
                    assert(crate::index::backend::slots_touching(boxes, q).contains(j));
                    let k = choose|k: int| 0 <= k < hits.len() && (#[trigger] hits[k]).0.0 == j;
                    assert(hits[k].1 == id);
                }
            }
        }
        out
    }

    /// The narrow phase for one candidate: the nodes from `id` up to its
    /// root, `id` first, where the point is within the local bounds of
    /// `id` and within every clip on the way up; no nodes otherwise.
    fn walk_up(&self, point: kurbo::Point, id: NodeId) -> (path: Vec<NodeId>)
        requires
            self.wf(),
            self@.alive(id),
        ensures
            path@ == if self@.accepts(id.0 as int, point) {
                self@.chain_of(id.0 as int, self@.depths[id.0 as int])
            } else {
                Seq::<NodeId>::empty()
            },
    {
        let ghost st = self@;
        let start = id.idx();
        proof {
            self.lemma_wf();
        }
        let mut path: Vec<NodeId> = Vec::new();
        let inside = match &self.nodes[start] {
            Some(n) => {
                let local_point = affine_apply(affine_inverse(n.world.world_transform), point);
                rect_contains(n.local.local_bounds, local_point)
            },
            None => false,
        };
        if !inside {
            return path;
        }
        let mut cur = start;
        let mut cur_id = id;
        let mut accepted = true;
        loop
            invariant_except_break
                st.occupied(cur as int),
                cur_id == st.id_at(cur as int),
                accepted,
                st.clips_accept(start as int, st.depths[start as int], point) <==> st.clips_accept(
                    cur as int,
                    st.depths[cur as int],
                    point,
                ),
                path@ + st.chain_of(cur as int, st.depths[cur as int]) == st.chain_of(
                    start as int,
                    st.depths[start as int],
                ),
            invariant
                st == self@,
                st.wf(),
                st.occupied(start as int),
            ensures
                accepted <==> st.clips_accept(start as int, st.depths[start as int], point),
                accepted ==> path@ == st.chain_of(start as int, st.depths[start as int]),
            decreases st.depths[cur as int],
        {
            proof {
                assert(st.parent_ok(cur as int));
            }
            let (parent, within) = match &self.nodes[cur] {
                Some(n) => {
                    let within = match n.local.local_clip {
                        Some(clip) => {
                            let local_point = affine_apply(
                                affine_inverse(n.world.world_transform),
                                point,
                            );
                            rounded_contains(clip, local_point)
                        },
                        None => true,
                    };
                    (n.parent, within)
                },
                None => (None, false),
            };
            if !within {
                accepted = false;
                break ;
            }
            let ghost before = path@;
            path.push(cur_id);
            match parent {
                Some(p) => {
                    proof {
                        let rest = st.chain_of(p.0 as int, st.depths[p.0 as int]);
                        assert(before.push(cur_id) + rest =~= before + (seq![cur_id] + rest));
                    }
                    cur = p.idx();
                    cur_id = p;
                },
                None => {
                    proof {
                        assert(before.push(cur_id) =~= before + seq![cur_id]);
                    }
                    break ;
                },
            }
        }
        if !accepted {
            path.clear();
        }
        path
    }

    /// Hit test a world-space point and, if any node matches, return the
    /// topmost node and its path from the root as a [`Hit`].
    ///
    /// The broad phase takes the nodes that [`Tree::containing_point`]
    /// lists. The narrow phase keeps a node where the point, taken into
    /// the node's local space by the inverse of its world transform, lies
    /// within its local bounds, and lies within the local clip of the node
    /// and of each of its ancestors, taken into their local spaces
    /// likewise. Of the nodes kept, the higher z-index wins; on a tie the
    /// deeper node; on a further tie the newer identifier.
    pub fn hit_test_point(&self, point: kurbo::Point, filter: QueryFilter) -> (r: Option<Hit>)
        requires
            self.wf(),
        ensures
            match r {
                Some(h) => {
                    &&& self@.hit_at(h.node, point, filter)
                    &&& h.path@ == self@.path_of(h.node.0 as int, self@.depths[h.node.0 as int])
                    &&& forall|other: NodeId|
                        #![trigger self@.hit_at(other, point, filter)]
                        self@.hit_at(other, point, filter) && other != h.node ==> self@.beats(
                            h.node,
                            other,
                        )
                },
                None => forall|id: NodeId| !#[trigger] self@.hit_at(id, point, filter),
            },
    {
        let ghost st = self@;
        proof {
            self.lemma_wf();
        }
        let cands = self.containing_point(point, filter);
        let mut best: Option<(NodeId, i32, Vec<NodeId>)> = None;
        let mut k: usize = 0;
        while k < cands.len()
            invariant
                st == self@,
                st.wf(),
                self.wf(),
                k <= cands.len(),
                cands@.no_duplicates(),
                forall|id: NodeId|
                    #[trigger] cands@.contains(id) <==> st.found_at(
                        id,
                        keys_of_point(point).0,
                        keys_of_point(point).1,
                        filter,
                    ),
                match best {
                    Some((b, z, path)) => {
                        &&& exists|w: int| 0 <= w < k && cands[w] == b
                        &&& st.hit_at(b, point, filter)
                        &&& z == st.node(b).local.z_index
                        &&& path@ == st.chain_of(b.0 as int, st.depths[b.0 as int])
                        &&& forall|w: int|
                            0 <= w < k && st.hit_at(#[trigger] cands[w], point, filter) && cands[w]
                                != b ==> st.beats(b, cands[w])
                    },
                    None => forall|w: int|
                        0 <= w < k ==> !st.hit_at(#[trigger] cands[w], point, filter),
                },
            decreases cands.len() - k,
        {
            let id = cands[k];
            proof {
                assert(cands@.contains(id));
            }
            let path = self.walk_up(point, id);
            if path.len() > 0 {
                proof {
                    st.lemma_chain_reversed(id.0 as int, st.depths[id.0 as int]);
                }
                let z = match &self.nodes[id.idx()] {
                    Some(n) => n.local.z_index,
                    None => 0,
                };
                let ghost best0 = best;
                let wins = match &best {
                    Some((b, zb, pb)) => {
                        proof {
                            st.lemma_chain_reversed(b.0 as int, st.depths[b.0 as int]);
                        }
                        z > *zb || (z == *zb && (path.len() > pb.len() || (path.len() == pb.len()
                            && id_is_newer(id, *b))))
                    },
                    None => true,
                };
                proof {
                    match best0 {
                        Some((b, zb, pb)) => {
                            assert(wins == st.beats(id, b));
                            assert(b != id) by {
                                let w = choose|w: int| 0 <= w < k && cands[w] == b;
                                assert(cands@[w] != cands@[k as int]);
                            }
                            st.lemma_beats_order(id, b, id);
                            assert forall|w: int|
                                0 <= w < k && st.hit_at(#[trigger] cands[w], point, filter)
                                    && cands[w] != b && wins implies st.beats(id, cands[w]) by {
                                st.lemma_beats_order(id, b, cands[w]);
                            }
                        },
                        None => {},
                    }
                }
                if wins {
                    best = Some((id, z, path));
                }
            } else {
                proof {
                    st.lemma_chain_reversed(id.0 as int, st.depths[id.0 as int]);
                }
            }
            k += 1;
        }
        proof {
            assert forall|id: NodeId| st.hit_at(id, point, filter) implies cands@.contains(id) by {}
        }
        match best {
            Some((node, _, path)) => {
                let path = reversed(path);
                proof {
                    st.lemma_chain_reversed(node.0 as int, st.depths[node.0 as int]);
                    assert forall|other: NodeId|
                        #![trigger st.hit_at(other, point, filter)]
                        st.hit_at(other, point, filter) && other != node implies st.beats(
                            node,
                            other,
                        ) by {
                        assert(cands@.contains(other));
                        let w = choose|w: int| 0 <= w < cands@.len() && cands@[w] == other;
                        assert(st.hit_at(cands[w], point, filter));
                    }
                }
                Some(Hit { node, path })
            },
            None => {
                proof {
                    assert forall|id: NodeId| !#[trigger] st.hit_at(id, point, filter) by {
                        if st.hit_at(id, point, filter) {
                            assert(cands@.contains(id));
                            let w = choose|w: int| 0 <= w < cands@.len() && cands@[w] == id;
                            assert(!st.hit_at(cands[w], point, filter));
                        }
                    }
                }
                None
            },
        }
    }

    /// Where `id` stands among the children of its parent.
    fn position_in_parent(&self, id: NodeId, parent: NodeId) -> (pos: usize)
        requires
            self.wf(),
            self@.alive(id),
            self@.node(id).parent == Some(parent),
        ensures
            pos < self@.node(parent).children.len(),
            pos == self@.node(parent).children.index_of(id),
            self@.node(parent).children[pos as int] == id,
    {
        proof {
            self.lemma_wf();
            assert(self@.parent_ok(id.0 as int));
        }
        let ghost kids = self@.node(parent).children;
        let mut i: usize = 0;
        match &self.nodes[parent.idx()] {
            Some(p) => {
                assert(p.children@ == kids);
                while i < p.children.len() && !(p.children[i].0 == id.0 && p.children[i].1 == id.1)
                    invariant
                        p.children@ == kids,
                        kids.contains(id),
                        i <= kids.len(),
                        forall|k: int| 0 <= k < i ==> kids[k] != id,
                    decreases kids.len() - i,
                {
                    i += 1;
                }
                proof {
                    if i == kids.len() {
                        let w = choose|w: int| 0 <= w < kids.len() && kids[w] == id;
                        assert(kids[w] != id);
                    }
                    self@.lemma_position(id.0 as int, i as int);
                }
            },
            None => {},
        }
        i
    }

    /// The sibling after `node`, if any.
    fn next_sibling(&self, node: NodeId) -> (r: Option<NodeId>)
        requires
            self.wf(),
            self@.alive(node),
        ensures
            r == self@.sibling_after(node.0 as int),
    {
        proof {
            self.lemma_wf();
            assert(self@.parent_ok(node.0 as int));
            assert(self@.id_at(node.0 as int) == node);
        }
        let parent = match self.parent_of(node) {
            Some(p) => p,
            None => {
                return None;
            },
        };
        let pos = self.position_in_parent(node, parent);
        match &self.nodes[parent.idx()] {
            Some(p) => if pos < p.children.len() && pos + 1 < p.children.len() {
                Some(p.children[pos + 1])
            } else {
                None
            },
            None => None,
        }
    }

    /// The sibling before `node`, if any.
    fn prev_sibling(&self, node: NodeId) -> (r: Option<NodeId>)
        requires
            self.wf(),
            self@.alive(node),
        ensures
            r == self@.sibling_before(node.0 as int),
    {
        proof {
            self.lemma_wf();
            assert(self@.parent_ok(node.0 as int));
            assert(self@.id_at(node.0 as int) == node);
        }
        let parent = match self.parent_of(node) {
            Some(p) => p,
            None => {
                return None;
            },
        };
        let pos = self.position_in_parent(node, parent);
        match &self.nodes[parent.idx()] {
            Some(p) => if pos > 0 {
                Some(p.children[pos - 1])
            } else {
                None
            },
            None => None,
        }
    }

    /// The last node of the subtree of `node` in pre-order.
    fn last_in_subtree(&self, node: NodeId) -> (r: NodeId)
        requires
            self.wf(),
            self@.alive(node),
        ensures
            r == self@.last_below(node.0 as int, self@.nodes.len()),
            self@.alive(r),
    {
        proof {
            self.lemma_wf();
        }
        let ghost st = self@;
        let mut cur = node;
        let mut fuel = self.nodes.len();
        loop
            invariant_except_break
                st.last_below(node.0 as int, st.nodes.len()) == st.last_below(
                    cur.0 as int,
                    fuel as nat,
                ),
            invariant
                st == self@,
                st.wf(),
                st.alive(cur),
            ensures
                cur == st.last_below(node.0 as int, st.nodes.len()),
            decreases fuel,
        {
            proof {
                assert(st.children_ok(cur.0 as int));
            }
            let last = match &self.nodes[cur.idx()] {
                Some(n) => if n.children.len() > 0 {
                    Some(n.children[n.children.len() - 1])
                } else {
                    None
                },
                None => None,
            };
            match last {
                Some(child) => {
                    if fuel == 0 {
                        break ;
                    }
                    proof {
                        let kids = st.node(cur).children;
                        assert(kids[kids.len() - 1] == child);
                    }
                    cur = child;
                    fuel -= 1;
                },
                None => {
                    break ;
                },
            }
        }
        cur
    }

    /// Get the next node in depth-first traversal order.
    ///
    /// This is the first child of `current`; else the next sibling of the
    /// nearest of `current` and its ancestors that has one; else `None`.
    /// The traversal does not wrap around. A stale identifier gives `None`.
    pub fn next_depth_first(&self, current: NodeId) -> (r: Option<NodeId>)
        requires
            self.wf(),
        ensures
            r == if self@.alive(current) {
                self@.next_in_order(current)
            } else {
                None
            },
            r matches Some(next) ==> self@.alive(next),
    {
        if !self.is_alive(current) {
            return None;
        }
        proof {
            self.lemma_wf();
        }
        let ghost st = self@;
        let first = match &self.nodes[current.idx()] {
            Some(n) => if n.children.len() > 0 {
                Some(n.children[0])
            } else {
                None
            },
            None => None,
        };
        if let Some(first_child) = first {
            proof {
                assert(st.children_ok(current.0 as int));
                assert(st.node(current).children[0] == first_child);
            }
            return Some(first_child);
        }
        let mut node = current;
        let mut found: Option<NodeId> = None;
        loop
            invariant_except_break
                found is None,
                st.next_above(current.0 as int, st.depths[current.0 as int]) == st.next_above(
                    node.0 as int,
                    st.depths[node.0 as int],
                ),
            invariant
                st == self@,
                self.wf(),
                st.wf(),
                st.alive(node),
                st.alive(current),
            ensures
                found == st.next_above(current.0 as int, st.depths[current.0 as int]),
                found matches Some(next) ==> st.alive(next),
            decreases st.depths[node.0 as int],
        {
            proof {
                assert(st.parent_ok(node.0 as int));
            }
            let parent = match self.parent_of(node) {
                Some(p) => p,
                None => {
                    break ;
                },
            };
            if let Some(next_sibling) = self.next_sibling(node) {
                proof {
                    assert(st.children_ok(parent.0 as int));
                    let kids = st.node(parent).children;
                    let pos = kids.index_of(st.id_at(node.0 as int));
                    assert(kids[pos + 1] == next_sibling);
                }
                found = Some(next_sibling);
                break ;
            }
            node = parent;
        }
        found
    }

    /// Get the previous node in reverse depth-first traversal order.
    ///
    /// This is the last node of the subtree of the previous sibling of
    /// `current`; else the parent of `current`; else `None`. The traversal
    /// does not wrap around. A stale identifier gives `None`.
    pub fn prev_depth_first(&self, current: NodeId) -> (r: Option<NodeId>)
        requires
            self.wf(),
        ensures
            r == if self@.alive(current) {
                self@.prev_in_order(current)
            } else {
                None
            },
            r matches Some(prev) ==> self@.alive(prev),
    {
        if !self.is_alive(current) {
            return None;
        }
        proof {
            self.lemma_wf();
            assert(self@.parent_ok(current.0 as int));
        }
        if let Some(prev_sibling) = self.prev_sibling(current) {
            proof {
                let st = self@;
                let parent = st.node(current).parent->0;
                assert(st.children_ok(parent.0 as int));
                let kids = st.node(parent).children;
                let pos = kids.index_of(st.id_at(current.0 as int));
                assert(kids[pos - 1] == prev_sibling);
            }
            return Some(self.last_in_subtree(prev_sibling));
        }
        self.parent_of(current)
    }

    /// Append `id` to the children of `parent` and make `parent` its
    /// parent.
    fn link_parent(&mut self, id: NodeId, parent: NodeId)
        requires
            old(self)@.alive(id),
            old(self)@.alive(parent),
            id.0 != parent.0,
        ensures
            final(self).nodes@.len() == old(self).nodes@.len(),
            final(self).generations == old(self).generations,
            final(self).free_list == old(self).free_list,
            final(self).index == old(self).index,
            final(self).staged == old(self).staged,
            final(self).depths == old(self).depths,
            forall|j: int|
                0 <= j < old(self).nodes@.len() && j != id.0 && j != parent.0 ==> final(self).nodes@[j] == old(self).nodes@[j],
            final(self)@.nodes[parent.0 as int] == Some(
                crate::box_tree::state::with_child(old(self)@.node(parent), id),
            ),
            final(self)@.nodes[id.0 as int] == Some(
                NodeView { parent: Some(parent), ..old(self)@.node(id) },
            ),
    {
        match &mut self.nodes[parent.idx()] {
            Some(p) => {
                p.children.push(id);
            },
            None => {},
        }
        match &mut self.nodes[id.idx()] {
            Some(n) => {
                n.parent = Some(parent);
            },
            None => {},
        }
    }
}

impl Node {
    /// A node as an insertion creates it.
    fn new(generation: u32, local: LocalNode) -> (r: Self)
        ensures
            crate::box_tree::state::fresh(r@, generation, None, local),
    {
        Node {
            generation,
            parent: None,
            children: Vec::new(),
            local,
            world: WorldNode {
                world_transform: identity_affine(),
                world_bounds: zero_rect(),
                world_clip: None,
            },
            dirty: Dirty { layout: true, transform: true, clip: true, z: true, index: true },
            index_key: None,
        }
    }
}

/// The sequence in reverse order.
pub fn reversed(v: Vec<NodeId>) -> (r: Vec<NodeId>)
    ensures
        r@ == v@.reverse(),
{
    let mut r: Vec<NodeId> = Vec::new();
    let mut i: usize = v.len();
    while i > 0
        invariant
            i <= v.len(),
            r.len() == v.len() - i,
            forall|k: int| 0 <= k < r.len() ==> r[k] == v[v.len() - 1 - k],
        decreases i,
    {
        i -= 1;
        r.push(v[i]);
    }
    assert(r@ =~= v@.reverse());
    r
}

impl Default for Tree<FlatVec<i64>> {
    /// An empty tree over the flat vector backend.
    fn default() -> (r: Self)
        ensures
            r.wf(),
            r@ == TreeState::empty(),
            r.index_state() == IndexState::<i64, NodeId>::empty(),
            r.staged().len() == 0,
    {
        Tree::new()
    }
}

} // verus!
