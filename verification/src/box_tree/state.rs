//! The mathematical model of the tree: its node arena with parent and
//! child links, and what the links must satisfy.

use crate::box_tree::geometry::{
    affine_image, affine_inverted, affine_product, bbox_of, clip_rect, rect_holds, rect_keys,
    rect_meet, rounded_holds, rounded_same,
};
use crate::box_tree::types::{Dirty, LocalNode, NodeId, WorldNode};
use crate::box_tree::keys::keys_of_rect;
use crate::index::state::{IndexState, Key, Mark};
use vstd::prelude::*;

verus! {

/// One occupied slot of the node arena.
pub struct NodeView {
    /// Generation of this occupant.
    pub generation: u32,
    /// The parent, or `None` for a root.
    pub parent: Option<NodeId>,
    /// The children, in sibling order.
    pub children: Seq<NodeId>,
    /// Geometry given by the author.
    pub local: LocalNode,
    /// Geometry derived at the last commit.
    pub world: WorldNode,
    /// What changed since the node was created.
    pub dirty: Dirty,
    /// The node's entry in the spatial index, once it has one.
    pub index_key: Option<Key>,
}

/// Abstract state of the node arena.
pub struct TreeState {
    /// The arena: one optional node per slot.
    pub nodes: Seq<Option<NodeView>>,
    /// Last generation issued for each slot; it survives the occupant.
    pub generations: Seq<u32>,
    /// Vacant slots available for reuse; the last one is taken first.
    pub free: Seq<usize>,
    /// Number of ancestors of the node in each occupied slot.
    pub depths: Seq<nat>,
}

impl TreeState {
    /// The tree without nodes.
    pub open spec fn empty() -> Self {
        TreeState {
            nodes: Seq::empty(),
            generations: Seq::empty(),
            free: Seq::empty(),
            depths: Seq::empty(),
        }
    }

    /// Whether slot `i` holds a node.
    pub open spec fn occupied(self, i: int) -> bool {
        0 <= i < self.nodes.len() && self.nodes[i] is Some
    }

    /// The identifier of the node in slot `i`.
    pub open spec fn id_at(self, i: int) -> NodeId {
        NodeId(i as u32, self.nodes[i]->0.generation)
    }

    /// Whether `id` names a live node: its slot is occupied by a node of
    /// the same generation.
    pub open spec fn alive(self, id: NodeId) -> bool {
        self.occupied(id.0 as int) && self.nodes[id.0 as int]->0.generation == id.1
    }

    /// The slot of the parent of the node in slot `i`, which is not a
    /// root.
    pub open spec fn parent_slot(self, i: int) -> int {
        let p = self.nodes[i]->0.parent->0;
        p.0 as int
    }

    /// The node that a live `id` names.
    pub open spec fn node(self, id: NodeId) -> NodeView {
        self.nodes[id.0 as int]->0
    }

    /// The invariant of the arena and its links.
    ///
    /// Generations are at least one and recorded per slot. Free slots are
    /// vacant and distinct. A node's parent is live and lists the node
    /// among its children, one level up; a root is at depth zero. A node's
    /// children are live, distinct, and have the node as their parent.
    pub open spec fn wf(self) -> bool {
        &&& self.nodes.len() == self.generations.len()
        &&& self.nodes.len() == self.depths.len()
        &&& self.nodes.len() <= u32::MAX
        &&& forall|i: int|
            self.occupied(i) ==> (#[trigger] self.nodes[i])->0.generation == self.generations[i]
                && self.generations[i] >= 1
        &&& self.free.no_duplicates()
        &&& forall|k: int|
            0 <= k < self.free.len() ==> {
                let f = #[trigger] self.free[k];
                &&& f < self.nodes.len()
                &&& self.nodes[f as int] is None
                &&& self.generations[f as int] < u32::MAX
            }
        &&& forall|i: int| self.occupied(i) ==> #[trigger] self.parent_ok(i)
        &&& forall|i: int| self.occupied(i) ==> #[trigger] self.children_ok(i)
    }

    /// The parent link of slot `i` is consistent.
    pub open spec fn parent_ok(self, i: int) -> bool {
        match self.nodes[i]->0.parent {
            Some(p) => {
                &&& self.alive(p)
                &&& self.node(p).children.contains(self.id_at(i))
                &&& self.depths[i] == self.depths[p.0 as int] + 1
            },
            None => self.depths[i] == 0,
        }
    }

    /// The child links of slot `i` are consistent.
    pub open spec fn children_ok(self, i: int) -> bool {
        let n = self.nodes[i]->0;
        &&& n.children.no_duplicates()
        &&& forall|k: int|
            0 <= k < n.children.len() ==> {
                let c = #[trigger] n.children[k];
                &&& self.alive(c)
                &&& self.node(c).parent == Some(self.id_at(i))
            }
    }

    /// Whether an insertion can be given a slot whose index fits an
    /// identifier.
    pub open spec fn has_room(self) -> bool {
        self.free.len() > 0 || self.nodes.len() < u32::MAX
    }

    /// The identifier that the next insertion returns: the last free slot
    /// with its generation advanced by one, or a fresh slot with
    /// generation 1.
    pub open spec fn next_id(self) -> NodeId {
        if self.free.len() > 0 {
            let idx = self.free.last();
            NodeId(idx as u32, (self.generations[idx as int] + 1) as u32)
        } else {
            NodeId(self.nodes.len() as u32, 1)
        }
    }

    /// Walking up from slot `j`, at most `fuel` steps, meets slot `r`.
    pub open spec fn under(self, r: int, j: int, fuel: nat) -> bool
        decreases fuel,
    {
        j == r || (fuel > 0 && self.occupied(j) && (self.nodes[j]->0.parent matches Some(p)
            && self.under(r, p.0 as int, (fuel - 1) as nat)))
    }

    /// Whether slot `j` holds `r` or a descendant of `r`.
    pub open spec fn in_subtree(self, r: int, j: int) -> bool {
        self.occupied(j) && self.under(r, j, self.depths[j])
    }

    /// The world transform that the links and local transforms give slot
    /// `i`: the local transform of a root, and for any other node the
    /// parent's world transform times the local transform.
    pub open spec fn world_transform_of(self, i: int, fuel: nat) -> kurbo::Affine
        decreases fuel,
    {
        let n = self.nodes[i]->0;
        match n.parent {
            Some(p) => if fuel > 0 {
                affine_product(
                    self.world_transform_of(p.0 as int, (fuel - 1) as nat),
                    n.local.local_transform,
                )
            } else {
                n.local.local_transform
            },
            None => n.local.local_transform,
        }
    }

    /// The clip that the links, transforms and local clips give slot `i`
    /// in world space: an absent clip contributes nothing, present clips
    /// intersect. A local clip counts by the bounding box of its rectangle
    /// under the node's world transform.
    pub open spec fn world_clip_of(self, i: int, fuel: nat) -> Option<kurbo::Rect>
        decreases fuel,
    {
        let n = self.nodes[i]->0;
        let inherited = match n.parent {
            Some(p) => if fuel > 0 {
                self.world_clip_of(p.0 as int, (fuel - 1) as nat)
            } else {
                None
            },
            None => None,
        };
        compose_clip(local_clip_in_world(self.world_transform_of(i, fuel), n.local), inherited)
    }

    /// The world data that a commit derives for slot `i`.
    pub open spec fn derived(self, i: int) -> WorldNode {
        let fuel = self.depths[i];
        let tf = self.world_transform_of(i, fuel);
        let clip = self.world_clip_of(i, fuel);
        WorldNode {
            world_transform: tf,
            world_bounds: clipped_bounds(tf, self.nodes[i]->0.local.local_bounds, clip),
            world_clip: clip,
        }
    }

    /// The path from the root down to slot `i`, both included.
    pub open spec fn path_of(self, i: int, fuel: nat) -> Seq<NodeId>
        decreases fuel,
    {
        match self.nodes[i]->0.parent {
            Some(p) => if fuel > 0 {
                self.path_of(p.0 as int, (fuel - 1) as nat).push(self.id_at(i))
            } else {
                seq![self.id_at(i)]
            },
            None => seq![self.id_at(i)],
        }
    }

    /// The point, taken into the local space of slot `i` by the inverse of
    /// its world transform, lies within the local clip of `i`, if it has
    /// one, and the same holds of every ancestor of `i`.
    pub open spec fn clips_accept(self, i: int, fuel: nat, point: kurbo::Point) -> bool
        decreases fuel,
    {
        let n = self.nodes[i]->0;
        &&& clip_accepts(n, point)
        &&& match n.parent {
            Some(p) => fuel > 0 ==> self.clips_accept(p.0 as int, (fuel - 1) as nat, point),
            None => true,
        }
    }

    /// Whether the narrow phase accepts the node in slot `i` for a world
    /// point: the point lies within the node's local bounds and within
    /// every clip from the node up to its root.
    pub open spec fn accepts(self, i: int, point: kurbo::Point) -> bool {
        let n = self.nodes[i]->0;
        &&& rect_holds(n.local.local_bounds, local_point(n, point))
        &&& self.clips_accept(i, self.depths[i], point)
    }
}

/// A node as an insertion creates it: no children, every dirty flag set,
/// no index key, no clip in force, and world bounds of four zero
/// coordinates. Its world transform is not fixed before the first commit.
pub open spec fn fresh(n: NodeView, generation: u32, parent: Option<NodeId>, local: LocalNode) -> bool {
    &&& n.generation == generation
    &&& n.parent == parent
    &&& n.children.len() == 0
    &&& n.local == local
    &&& n.dirty == Dirty::all()
    &&& n.index_key is None
    &&& n.world.world_clip is None
    &&& rect_keys(n.world.world_bounds) == (0i64, 0i64, 0i64, 0i64)
}

/// `n` with `id` appended to its children.
pub open spec fn with_child(n: NodeView, id: NodeId) -> NodeView {
    NodeView { children: n.children.push(id), ..n }
}

impl TreeState {
    /// The parent that a node given `parent` gets: `parent` itself where it
    /// names a live node, and none where it names none or is stale.
    pub open spec fn live_parent(self, parent: Option<NodeId>) -> Option<NodeId> {
        match parent {
            Some(p) => if self.alive(p) {
                parent
            } else {
                None
            },
            None => None,
        }
    }

    /// `after` is the state that inserting a node under `parent` with
    /// geometry `local` leaves, and `id` the identifier it returns.
    ///
    /// The node takes the slot of [`TreeState::next_id`]. It is appended to
    /// the children of its parent, one level below it, or is a root. No
    /// other node changes.
    pub open spec fn inserted(
        self,
        parent: Option<NodeId>,
        local: LocalNode,
        id: NodeId,
        after: TreeState,
    ) -> bool {
        let idx = id.0 as int;
        let depth = match parent {
            Some(p) => self.depths[p.0 as int] + 1,
            None => 0nat,
        };
        &&& id == self.next_id()
        &&& if self.free.len() > 0 {
            &&& after.nodes.len() == self.nodes.len()
            &&& after.generations == self.generations.update(idx, id.1)
            &&& after.free == self.free.drop_last()
            &&& after.depths == self.depths.update(idx, depth)
        } else {
            &&& after.nodes.len() == self.nodes.len() + 1
            &&& after.generations == self.generations.push(id.1)
            &&& after.free == self.free
            &&& after.depths == self.depths.push(depth)
        }
        &&& after.nodes[idx] matches Some(n) && fresh(n, id.1, parent, local)
        &&& forall|j: int|
            0 <= j < self.nodes.len() && j != idx ==> #[trigger] after.nodes[j] == if parent
                == Some(self.id_at(j)) && self.occupied(j) {
                Some(with_child(self.nodes[j]->0, id))
            } else {
                self.nodes[j]
            }
    }

    /// An insertion keeps the invariant, makes the new identifier live, and
    /// leaves every other identifier as it was.
    pub proof fn lemma_inserted(
        self,
        parent: Option<NodeId>,
        local: LocalNode,
        id: NodeId,
        after: TreeState,
    )
        requires
            self.wf(),
            self.has_room(),
            parent matches Some(p) ==> self.alive(p),
            self.inserted(parent, local, id, after),
        ensures
            after.wf(),
            !self.alive(id),
            after.alive(id),
            forall|other: NodeId| other != id ==> (after.alive(other) <==> self.alive(other)),
            forall|j: int| self.occupied(j) ==> after.occupied(j) && after.id_at(j) == self.id_at(j),
    {
        let idx = id.0 as int;
        if self.free.len() > 0 {
            assert(self.free[self.free.len() - 1] == self.free.last());
        }
        assert(!self.occupied(idx));
        assert forall|j: int| self.occupied(j) implies after.occupied(j) && after.id_at(j)
            == self.id_at(j) by {
            assert(j != idx);
            assert(after.nodes[j] is Some);
        }
        assert forall|other: NodeId| other != id implies (after.alive(other) <==> self.alive(
            other,
        )) by {
            if other.0 as int != idx {
                if 0 <= other.0 < self.nodes.len() {
                    assert(after.nodes[other.0 as int] is Some <==> self.nodes[other.0 as int]
                        is Some);
                }
            }
        }
        assert forall|k: int| 0 <= k < after.free.len() implies {
            let f = #[trigger] after.free[k];
            &&& f < after.nodes.len()
            &&& after.nodes[f as int] is None
            &&& after.generations[f as int] < u32::MAX
        } by {
            assert(after.free[k] == self.free[k]);
            if self.free.len() > 0 {
                assert(self.free[k] != self.free[self.free.len() - 1]);
            }
            assert(after.nodes[self.free[k] as int] == self.nodes[self.free[k] as int]);
        }
        assert forall|i: int| after.occupied(i) implies (#[trigger] after.nodes[i])->0.generation
            == after.generations[i] && after.generations[i] >= 1 by {
            if i != idx {
                assert(self.occupied(i));
                assert(self.nodes[i]->0.generation == self.generations[i]);
            }
        }
        assert forall|i: int| after.occupied(i) implies #[trigger] after.parent_ok(i) by {
            if i == idx {
                match parent {
                    Some(p) => {
                        let pj = p.0 as int;
                        assert(self.occupied(pj));
                        assert(pj != idx);
                        assert(after.nodes[pj] == Some(with_child(self.nodes[pj]->0, id)));
                        let kids = self.nodes[pj]->0.children;
                        assert(kids.push(id)[kids.len() as int] == id);
                    },
                    None => {},
                }
            } else {
                assert(self.occupied(i));
                assert(self.parent_ok(i));
                match self.nodes[i]->0.parent {
                    Some(q) => {
                        let qj = q.0 as int;
                        assert(self.occupied(qj));
                        assert(qj != idx);
                        let kids = self.nodes[qj]->0.children;
                        let w = choose|w: int| 0 <= w < kids.len() && kids[w] == self.id_at(i);
                        assert(after.nodes[qj]->0.children[w] == self.id_at(i));
                    },
                    None => {},
                }
            }
        }
        assert forall|i: int| after.occupied(i) implies #[trigger] after.children_ok(i) by {
            if i != idx {
                assert(self.occupied(i));
                assert(self.children_ok(i));
                let kids = self.nodes[i]->0.children;
                let kids2 = after.nodes[i]->0.children;
                assert forall|k: int| 0 <= k < kids2.len() implies {
                    let c = #[trigger] kids2[k];
                    &&& after.alive(c)
                    &&& after.node(c).parent == Some(after.id_at(i))
                } by {
                    if k < kids.len() {
                        let c = kids[k];
                        assert(kids2[k] == c);
                        assert(self.alive(c));
                        assert(c.0 as int != idx);
                        assert(self.node(c).parent == Some(self.id_at(i)));
                    }
                }
                assert forall|a: int, b: int|
                    0 <= a < kids2.len() && 0 <= b < kids2.len() && a != b implies kids2[a]
                    != kids2[b] by {
                    if a < kids.len() && b < kids.len() {
                        assert(kids[a] != kids[b]);
                    } else if a < kids.len() {
                        assert(self.alive(kids[a]));
                    } else if b < kids.len() {
                        assert(self.alive(kids[b]));
                    }
                }
            }
        }
    }
}

impl TreeState {
    /// The state with the node in slot `i` replaced by `n`.
    pub open spec fn replace(self, i: int, n: NodeView) -> TreeState {
        TreeState { nodes: self.nodes.update(i, Some(n)), ..self }
    }

    /// Replacing a node by one with the same generation and links keeps
    /// the invariant and every identifier.
    pub proof fn lemma_replace(self, i: int, n: NodeView)
        requires
            self.wf(),
            self.occupied(i),
            n.generation == self.nodes[i]->0.generation,
            n.parent == self.nodes[i]->0.parent,
            n.children == self.nodes[i]->0.children,
        ensures
            self.replace(i, n).wf(),
            forall|id: NodeId| self.replace(i, n).alive(id) <==> self.alive(id),
            forall|j: int| self.replace(i, n).occupied(j) <==> self.occupied(j),
            forall|j: int| self.occupied(j) ==> self.replace(i, n).id_at(j) == self.id_at(j),
    {
        let after = self.replace(i, n);
        assert forall|j: int| after.occupied(j) <==> self.occupied(j) by {}
        assert forall|j: int| self.occupied(j) implies after.id_at(j) == self.id_at(j) by {}
        assert forall|id: NodeId| after.alive(id) <==> self.alive(id) by {}
        assert forall|k: int| 0 <= k < after.free.len() implies {
            let f = #[trigger] after.free[k];
            &&& f < after.nodes.len()
            &&& after.nodes[f as int] is None
            &&& after.generations[f as int] < u32::MAX
        } by {
            assert(self.nodes[self.free[k] as int] is None);
        }
        assert forall|j: int| after.occupied(j) implies (#[trigger] after.nodes[j])->0.generation
            == after.generations[j] && after.generations[j] >= 1 by {
            assert(self.nodes[j]->0.generation == self.generations[j]);
        }
        assert forall|j: int| after.occupied(j) implies #[trigger] after.parent_ok(j) by {
            assert(self.parent_ok(j));
            match self.nodes[j]->0.parent {
                Some(q) => {
                    assert(after.node(q).children == self.node(q).children);
                },
                None => {},
            }
        }
        assert forall|j: int| after.occupied(j) implies #[trigger] after.children_ok(j) by {
            assert(self.children_ok(j));
            let kids = self.nodes[j]->0.children;
            assert(after.nodes[j]->0.children == kids);
            assert forall|k: int| 0 <= k < kids.len() implies {
                let c = #[trigger] kids[k];
                &&& after.alive(c)
                &&& after.node(c).parent == Some(after.id_at(j))
            } by {
                let c = kids[k];
                assert(self.alive(c));
                assert(self.node(c).parent == Some(self.id_at(j)));
            }
        }
    }
}

/// Whether two optional clips are the same: both absent, or both present
/// and equal.
pub open spec fn clip_same(a: Option<kurbo::RoundedRect>, b: Option<kurbo::RoundedRect>) -> bool {
    match (a, b) {
        (Some(x), Some(y)) => rounded_same(x, y),
        (None, None) => true,
        _ => false,
    }
}

/// The world point in the node's local space, as of the last commit.
pub open spec fn local_point(n: NodeView, point: kurbo::Point) -> kurbo::Point {
    affine_image(affine_inverted(n.world.world_transform), point)
}

/// The node has no local clip, or the clip contains the point taken into
/// the node's local space.
pub open spec fn clip_accepts(n: NodeView, point: kurbo::Point) -> bool {
    match n.local.local_clip {
        Some(c) => rounded_holds(c, local_point(n, point)),
        None => true,
    }
}

/// A node's local clip in world space: the bounding box of the clip's
/// rectangle under the node's world transform.
pub open spec fn local_clip_in_world(tf: kurbo::Affine, local: LocalNode) -> Option<kurbo::Rect> {
    match local.local_clip {
        Some(rr) => Some(bbox_of(tf, clip_rect(rr))),
        None => None,
    }
}

/// The clip in force for a node: the intersection of its own clip and the
/// inherited one where both are present, else whichever is.
pub open spec fn compose_clip(
    local: Option<kurbo::Rect>,
    inherited: Option<kurbo::Rect>,
) -> Option<kurbo::Rect> {
    match (local, inherited) {
        (Some(l), Some(p)) => Some(rect_meet(l, p)),
        (Some(l), None) => Some(l),
        (None, Some(p)) => Some(p),
        (None, None) => None,
    }
}

/// World bounds of a node: the bounding box of its local bounds under its
/// world transform, intersected with the clip in force, if any.
pub open spec fn clipped_bounds(
    tf: kurbo::Affine,
    local_bounds: kurbo::Rect,
    clip: Option<kurbo::Rect>,
) -> kurbo::Rect {
    match clip {
        Some(c) => rect_meet(bbox_of(tf, local_bounds), c),
        None => bbox_of(tf, local_bounds),
    }
}

/// Candidate `a`, at z-index `za` and path depth `da`, wins over candidate
/// `b`: by higher z-index, then by greater depth, then by being newer.
pub open spec fn outranks(za: i32, da: int, a: NodeId, zb: i32, db: int, b: NodeId) -> bool {
    za > zb || (za == zb && (da > db || (da == db && a.newer_than(b))))
}

/// The node in slot `i`, if it has an index key, has a settled entry
/// under that key, with the node as payload and the keys of its world
/// bounds as box.
pub open spec fn key_ok(tree: TreeState, index: IndexState<i64, NodeId>, i: int) -> bool {
    match tree.nodes[i]->0.index_key {
        Some(k) => {
            &&& index.lookup(k) matches Some(e)
            &&& e.payload == tree.id_at(i)
            &&& e.mark is None
            &&& e.aabb == keys_of_rect(tree.nodes[i]->0.world.world_bounds)
        },
        None => true,
    }
}

/// The entry in index slot `j` is settled and belongs to the live node
/// that is its payload, or it is marked removed and its payload is dead.
pub open spec fn entry_ok(tree: TreeState, index: IndexState<i64, NodeId>, j: int) -> bool {
    match index.slots[j] {
        Some(e) => {
            &&& e.payload.0 < tree.nodes.len()
            &&& e.payload.1 <= tree.generations[e.payload.0 as int]
            &&& if e.mark is None {
                tree.alive(e.payload) && tree.node(e.payload).index_key == Some(
                    Key(j as u32, e.generation),
                )
            } else {
                e.mark == Some(Mark::Removed) && !tree.alive(e.payload)
            }
        },
        None => true,
    }
}

/// The tree and its index agree: every keyed node has its entry, and every
/// entry its node. Entries are settled or marked removed; other marks
/// exist only inside a commit.
pub open spec fn synced(tree: TreeState, index: IndexState<i64, NodeId>) -> bool {
    &&& forall|i: int| tree.occupied(i) ==> #[trigger] key_ok(tree, index, i)
    &&& forall|j: int| 0 <= j < index.slots.len() ==> #[trigger] entry_ok(tree, index, j)
}

} // verus!
