//! Laws of the tree that relate several operations.

use crate::box_tree::damage::{covers_all, join_rects};
use crate::box_tree::commit::{bounds_meet_clip, box_holds_corners, lemma_meet_holds_common};
use crate::box_tree::geometry::{
    affine_image, affine_product, bbox_of, corner_of, covers, holds_point, number_pair, numbers,
    point_keys, rect_keys,
};
use crate::box_tree::keys::keys_of_rect;
use crate::box_tree::state::TreeState;
use crate::box_tree::tree::Tree;
use crate::index::backend::Backend;
use crate::box_tree::types::{LocalNode, NodeId, QueryFilter};
use crate::index::types::Aabb2D;
use vstd::prelude::*;

verus! {

impl TreeState {
    /// Whether `id` may have been returned by an insertion into this
    /// tree: its slot exists and its generation is one that the slot has
    /// reached.
    pub open spec fn issued(self, id: NodeId) -> bool {
        id.0 < self.nodes.len() && id.1 <= self.generations[id.0 as int]
    }

    /// A live identifier has been issued.
    pub proof fn lemma_alive_is_issued(self, id: NodeId)
        requires
            self.wf(),
            self.alive(id),
        ensures
            self.issued(id),
    {
    }

    /// Once removed, an identifier is stale, and no later insertion makes
    /// it live again: where the insertion reuses its slot, the new
    /// occupant has a higher generation, so the old identifier is not
    /// newer than the new one.
    pub proof fn lemma_removed_stays_stale(
        self,
        id: NodeId,
        removed: TreeState,
        parent: Option<NodeId>,
        local: LocalNode,
        new_id: NodeId,
        after: TreeState,
    )
        requires
            self.wf(),
            self.alive(id),
            self.removed(id, removed),
            removed.has_room(),
            parent matches Some(p) ==> removed.alive(p),
            removed.inserted(parent, local, new_id, after),
        ensures
            !removed.alive(id),
            !after.alive(id),
            after.issued(id),
            new_id != id,
            new_id.0 == id.0 ==> new_id.1 > id.1 && new_id.newer_than(id) && !id.newer_than(new_id),
    {
        self.lemma_removed(id, removed);
        removed.lemma_stale_stays_stale(id, parent, local, new_id, after);
    }

    /// An identifier that has been issued and is stale stays stale through
    /// an insertion, and the insertion returns another identifier.
    pub proof fn lemma_stale_stays_stale(
        self,
        id: NodeId,
        parent: Option<NodeId>,
        local: LocalNode,
        new_id: NodeId,
        after: TreeState,
    )
        requires
            self.wf(),
            self.issued(id),
            !self.alive(id),
            self.has_room(),
            parent matches Some(p) ==> self.alive(p),
            self.inserted(parent, local, new_id, after),
        ensures
            !after.alive(id),
            after.issued(id),
            new_id != id,
            new_id.0 == id.0 ==> new_id.1 > id.1 && new_id.newer_than(id) && !id.newer_than(new_id),
    {
        self.lemma_inserted(parent, local, new_id, after);
        if self.free.len() > 0 {
            assert(self.free[self.free.len() - 1] == self.free.last());
        }
    }

    /// A node inserted under a stale parent becomes a root, and no node
    /// gains it as a child: whatever has taken the slot of the stale
    /// parent since is left as it was.
    pub proof fn lemma_stale_parent_adopts_nothing(
        self,
        parent: NodeId,
        local: LocalNode,
        new_id: NodeId,
        after: TreeState,
    )
        requires
            self.wf(),
            self.has_room(),
            !self.alive(parent),
            self.inserted(self.live_parent(Some(parent)), local, new_id, after),
        ensures
            after.wf(),
            after.alive(new_id),
            after.node(new_id).parent is None,
            forall|j: int| self.occupied(j) ==> #[trigger] after.nodes[j] == self.nodes[j],
    {
        self.lemma_inserted(None, local, new_id, after);
        if self.free.len() > 0 {
            assert(self.free[self.free.len() - 1] == self.free.last());
        }
    }

    /// Reusing a slot raises its generation: the identifier that an
    /// insertion returns is newer than every identifier that its slot has
    /// had.
    pub proof fn lemma_reuse_raises_generation(
        self,
        earlier: NodeId,
        parent: Option<NodeId>,
        local: LocalNode,
        new_id: NodeId,
        after: TreeState,
    )
        requires
            self.wf(),
            self.has_room(),
            parent matches Some(p) ==> self.alive(p),
            self.inserted(parent, local, new_id, after),
            self.issued(earlier),
            earlier.0 == new_id.0,
        ensures
            new_id.1 > earlier.1,
            new_id.newer_than(earlier),
            after.generations[new_id.0 as int] == new_id.1,
            after.generations[new_id.0 as int] > self.generations[new_id.0 as int],
    {
        self.lemma_inserted(parent, local, new_id, after);
        if self.free.len() > 0 {
            assert(self.free[self.free.len() - 1] == self.free.last());
        }
    }

    /// After a commit, the world transform of a node is the product of the
    /// local transforms on its path from the root: for a chain of a root
    /// `r`, its child `a` and the child `b` of `a`, that of `b` is
    /// `(T_r * T_a) * T_b`.
    pub proof fn lemma_transforms_compose(self, r: NodeId, a: NodeId, b: NodeId, after: TreeState)
        requires
            self.wf(),
            self.committed(after),
            self.alive(r),
            self.alive(a),
            self.alive(b),
            self.node(r).parent is None,
            self.node(a).parent == Some(r),
            self.node(b).parent == Some(a),
        ensures
            after.alive(r) && after.alive(a) && after.alive(b),
            after.node(r).world.world_transform == self.node(r).local.local_transform,
            after.node(a).world.world_transform == affine_product(
                self.node(r).local.local_transform,
                self.node(a).local.local_transform,
            ),
            after.node(b).world.world_transform == affine_product(
                affine_product(
                    self.node(r).local.local_transform,
                    self.node(a).local.local_transform,
                ),
                self.node(b).local.local_transform,
            ),
    {
        let ri = r.0 as int;
        let ai = a.0 as int;
        let bi = b.0 as int;
        assert(self.parent_ok(ri));
        assert(self.parent_ok(ai));
        assert(self.parent_ok(bi));
        assert(after.nodes[ri] is Some);
        assert(after.nodes[ai] is Some);
        assert(after.nodes[bi] is Some);
        assert(self.depths[ri] == 0);
        assert(self.depths[ai] == 1);
        assert(self.depths[bi] == 2);
        assert(self.world_transform_of(ri, 0) == self.node(r).local.local_transform);
        assert(self.world_transform_of(ai, 1) == affine_product(
            self.world_transform_of(ri, 0),
            self.node(a).local.local_transform,
        ));
        assert(self.world_transform_of(bi, 2) == affine_product(
            self.world_transform_of(ai, 1),
            self.node(b).local.local_transform,
        ));
    }

    /// After a commit, the world transform of every node that has a parent
    /// is its parent's world transform times its own local transform, and
    /// that of a root is its local transform.
    pub proof fn lemma_transform_step(self, id: NodeId, after: TreeState)
        requires
            self.wf(),
            self.committed(after),
            self.alive(id),
        ensures
            after.alive(id),
            after.node(id).world.world_transform == match self.node(id).parent {
                Some(p) => affine_product(
                    after.node(p).world.world_transform,
                    self.node(id).local.local_transform,
                ),
                None => self.node(id).local.local_transform,
            },
    {
        let i = id.0 as int;
        assert(self.parent_ok(i));
        assert(after.nodes[i] is Some);
        match self.node(id).parent {
            Some(p) => {
                assert(after.nodes[p.0 as int] is Some);
            },
            None => {},
        }
    }

    /// A rectangle query includes a node whose box shares an edge with the
    /// query box.
    pub proof fn lemma_shared_edge_is_found(self, id: NodeId, query: Aabb2D<i64>, filter: QueryFilter)
        requires
            self.listed(id, filter),
            shares_edge(self.box_of(id), query),
        ensures
            self.found_in(id, query, filter),
    {
    }
}

/// Whether two boxes, each with its minimum at or below its maximum, share
/// an edge: they meet in one coordinate on one axis and overlap on the
/// other.
pub open spec fn shares_edge(a: Aabb2D<i64>, b: Aabb2D<i64>) -> bool {
    &&& a.min_x <= a.max_x && a.min_y <= a.max_y
    &&& b.min_x <= b.max_x && b.min_y <= b.max_y
    &&& {
        ||| (a.max_x == b.min_x || a.min_x == b.max_x) && a.min_y <= b.max_y && b.min_y <= a.max_y
        ||| (a.max_y == b.min_y || a.min_y == b.max_y) && a.min_x <= b.max_x && b.min_x <= a.max_x
    }
}

/// Boxes that share an edge overlap.
pub proof fn lemma_shared_edge_touches(a: Aabb2D<i64>, b: Aabb2D<i64>)
    requires
        shares_edge(a, b),
    ensures
        a.touches(b),
        b.touches(a),
{
}

/// A commit that changes the box of a node reports damage. Where the
/// commit of `tree` reports `dirty`, made of `node_rects` and the join of
/// `covered`, and the box of the node in slot `j` changes, `dirty` is not
/// empty and ends with the join of `covered`; `covered` holds the node's
/// new world bounds, and its old ones where the node was indexed before;
/// and `dirty` itself holds each of the two that is not degenerate. Where
/// the join covers what it joins, as it does of numbers, the last
/// rectangle of `dirty` covers those bounds.
pub proof fn lemma_moved_node_is_damaged<B: Backend<i64>>(
    tree: &Tree<B>,
    j: int,
    dirty: Seq<kurbo::Rect>,
    node_rects: Seq<kurbo::Rect>,
    covered: Seq<kurbo::Rect>,
)
    requires
        tree.reports(dirty, node_rects, covered),
        tree@.occupied(j),
        tree@.moves(j),
    ensures
        dirty.len() > 0,
        dirty.last() == join_rects(covered),
        covers_all(dirty.last(), covered) ==> covers(
            rect_keys(dirty.last()),
            rect_keys(tree@.new_bounds(j)),
        ) && (tree@.nodes[j]->0.index_key is Some ==> covers(
            rect_keys(dirty.last()),
            rect_keys(tree@.old_bounds(j)),
        )),
        covered.contains(tree@.new_bounds(j)),
        tree@.nodes[j]->0.index_key is Some ==> covered.contains(tree@.old_bounds(j)),
        !keys_of_rect(tree@.new_bounds(j)).degenerate() ==> dirty.contains(tree@.new_bounds(j)),
        !keys_of_rect(tree@.old_bounds(j)).degenerate() ==> dirty.contains(tree@.old_bounds(j)),
{
    let all = tree@.occupied_slots();
    assert(all.contains(j));
    assert(tree@.index_damage(all, tree@.new_bounds(j)));
    assert(covered.contains(tree@.new_bounds(j)));
    if tree@.nodes[j]->0.index_key is Some {
        assert(tree@.index_damage(all, tree@.old_bounds(j)));
    }
    crate::box_tree::commit::lemma_concat_contains(node_rects, seq![join_rects(covered)]);
    if !keys_of_rect(tree@.new_bounds(j)).degenerate() {
        assert(tree@.node_damage(all, tree@.new_bounds(j)));
        assert(node_rects.contains(tree@.new_bounds(j)));
    }
    if !keys_of_rect(tree@.old_bounds(j)).degenerate() {
        assert(tree@.node_damage(all, tree@.old_bounds(j)));
        assert(node_rects.contains(tree@.old_bounds(j)));
    }
    if covers_all(dirty.last(), covered) {
        let w = choose|w: int| 0 <= w < covered.len() && covered[w] == tree@.new_bounds(j);
        assert(covers(rect_keys(dirty.last()), rect_keys(covered[w])));
        if tree@.nodes[j]->0.index_key is Some {
            assert(covered.contains(tree@.old_bounds(j)));
            let v = choose|v: int| 0 <= v < covered.len() && covered[v] == tree@.old_bounds(j);
            assert(covers(rect_keys(dirty.last()), rect_keys(covered[v])));
        }
    }
}

/// World bounds are never smaller than what they bound, as far as that
/// can be said of corners. For the world data that a commit derives for
/// the node in slot `j`: the image under the world transform of a corner
/// `p` of the local bounds lies within the world bounds, where it lies
/// within the clip in force, if there is one. All coordinates concerned
/// are taken to be numbers.
pub proof fn lemma_bounds_hold_corner_image(st: TreeState, j: int, p: kurbo::Point)
    requires
        box_holds_corners(st, j),
        bounds_meet_clip(st, j),
        corner_of(rect_keys(st.nodes[j]->0.local.local_bounds), point_keys(p)),
        number_pair(point_keys(affine_image(st.derived(j).world_transform, p))),
        numbers(
            rect_keys(bbox_of(st.derived(j).world_transform, st.nodes[j]->0.local.local_bounds)),
        ),
        st.derived(j).world_clip matches Some(c) ==> numbers(rect_keys(c)) && holds_point(
            rect_keys(c),
            point_keys(affine_image(st.derived(j).world_transform, p)),
        ),
    ensures
        holds_point(
            rect_keys(st.derived(j).world_bounds),
            point_keys(affine_image(st.derived(j).world_transform, p)),
        ),
{
    let d = st.derived(j);
    let bbox = bbox_of(d.world_transform, st.nodes[j]->0.local.local_bounds);
    let q = point_keys(affine_image(d.world_transform, p));
    assert(holds_point(rect_keys(bbox), q));
    match d.world_clip {
        Some(c) => {
            lemma_meet_holds_common(rect_keys(bbox), rect_keys(c), q.0, q.1);
        },
        None => {},
    }
}

} // verus!
