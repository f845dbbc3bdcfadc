//! What the queries of the tree return, stated over the arena.

use crate::box_tree::keys::{keys_of_point, keys_of_rect};
use crate::box_tree::state::{entry_ok, key_ok, outranks, synced, TreeState};
use crate::box_tree::types::{NodeId, QueryFilter};
use crate::index::state::IndexState;
use crate::index::types::Aabb2D;
use vstd::prelude::*;

verus! {

impl TreeState {
    /// Whether a query considers `id` at all: it is live, it has been
    /// committed to the index, and its flags hold every flag the filter
    /// requires.
    pub open spec fn listed(self, id: NodeId, filter: QueryFilter) -> bool {
        &&& self.alive(id)
        &&& self.node(id).index_key is Some
        &&& self.node(id).local.flags.has_all(filter.required_flags)
    }

    /// The box under which `id` is indexed: the keys of its world bounds as
    /// of the last commit.
    pub open spec fn box_of(self, id: NodeId) -> Aabb2D<i64> {
        keys_of_rect(self.node(id).world.world_bounds)
    }

    /// Whether the broad phase finds `id` for the point with keys
    /// `(x, y)`: its box contains the point, edges included.
    pub open spec fn found_at(self, id: NodeId, x: i64, y: i64, filter: QueryFilter) -> bool {
        self.listed(id, filter) && self.box_of(id).contains(x, y)
    }

    /// Whether the broad phase finds `id` for the box `rect` of keys: its
    /// box overlaps `rect`, edges included.
    pub open spec fn found_in(self, id: NodeId, rect: Aabb2D<i64>, filter: QueryFilter) -> bool {
        self.listed(id, filter) && self.box_of(id).touches(rect)
    }

    /// Whether a hit test at `point` keeps `id`: the broad phase finds it
    /// and the narrow phase accepts it.
    pub open spec fn hit_at(self, id: NodeId, point: kurbo::Point, filter: QueryFilter) -> bool {
        &&& self.found_at(id, keys_of_point(point).0, keys_of_point(point).1, filter)
        &&& self.accepts(id.0 as int, point)
    }

    /// The nodes from slot `i` up to its root, `i` first.
    pub open spec fn chain_of(self, i: int, fuel: nat) -> Seq<NodeId>
        decreases fuel,
    {
        match self.nodes[i]->0.parent {
            Some(p) => if fuel > 0 {
                seq![self.id_at(i)] + self.chain_of(p.0 as int, (fuel - 1) as nat)
            } else {
                seq![self.id_at(i)]
            },
            None => seq![self.id_at(i)],
        }
    }

    /// The chain from a node up to its root is the path from the root down
    /// to the node, reversed, and is one longer than the node is deep.
    pub proof fn lemma_chain_reversed(self, i: int, fuel: nat)
        requires
            self.wf(),
            self.occupied(i),
            fuel == self.depths[i],
        ensures
            self.chain_of(i, fuel).reverse() == self.path_of(i, fuel),
            self.chain_of(i, fuel).len() == fuel + 1,
        decreases fuel,
    {
        assert(self.parent_ok(i));
        match self.nodes[i]->0.parent {
            Some(p) => {
                self.lemma_chain_reversed(p.0 as int, (fuel - 1) as nat);
                let rest = self.chain_of(p.0 as int, (fuel - 1) as nat);
                let head = seq![self.id_at(i)];
                assert((head + rest).reverse() =~= rest.reverse().push(self.id_at(i)));
            },
            None => {
                assert(seq![self.id_at(i)].reverse() =~= seq![self.id_at(i)]);
            },
        }
    }

    /// The rank of `id` in a hit test wins over that of `other`.
    pub open spec fn beats(self, id: NodeId, other: NodeId) -> bool {
        outranks(
            self.node(id).local.z_index,
            self.depths[id.0 as int] as int,
            id,
            self.node(other).local.z_index,
            self.depths[other.0 as int] as int,
            other,
        )
    }

    /// Of two distinct nodes exactly one beats the other, and beating is
    /// transitive.
    pub proof fn lemma_beats_order(self, a: NodeId, b: NodeId, c: NodeId)
        ensures
            a != b ==> (self.beats(a, b) <==> !self.beats(b, a)),
            !self.beats(a, a),
            self.beats(a, b) && self.beats(b, c) ==> self.beats(a, c),
    {
    }
}

/// What the index finds for a point is what the arena says: the payloads
/// of the slots whose box contains the point are the live nodes that are
/// found there, and the payloads of removed entries.
pub proof fn lemma_index_finds(
    tree: TreeState,
    index: IndexState<i64, NodeId>,
    id: NodeId,
    filter: QueryFilter,
)
    requires
        tree.wf(),
        index.wf(),
        synced(tree, index),
        tree.listed(id, filter),
    ensures
        ({
            let k = tree.node(id).index_key->0;
            &&& index.boxes.dom().contains(k.0 as usize)
            &&& index.boxes[k.0 as usize] == tree.box_of(id)
            &&& index.hit(k.0 as usize) == (k, id)
        }),
{
    let i = id.0 as int;
    assert(key_ok(tree, index, i));
    let k = tree.node(id).index_key->0;
    assert(index.materialised(k.0 as usize));
}

/// A live payload of an index slot that the backend holds is the node
/// whose index key names that slot.
pub proof fn lemma_hit_is_node(tree: TreeState, index: IndexState<i64, NodeId>, j: usize)
    requires
        tree.wf(),
        index.wf(),
        synced(tree, index),
        index.boxes.dom().contains(j),
        tree.alive(index.hit(j).1),
    ensures
        ({
            let id = index.hit(j).1;
            &&& tree.node(id).index_key == Some(index.hit(j).0)
            &&& index.hit(j).0.0 == j
            &&& index.boxes[j] == tree.box_of(id)
        }),
{
    assert(index.materialised(j));
    assert(entry_ok(tree, index, j as int));
    let id = index.hit(j).1;
    assert(key_ok(tree, index, id.0 as int));
}

} // verus!
