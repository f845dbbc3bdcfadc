//! Public types for the box tree: node identifiers and flags.

use crate::box_tree::geometry::{identity_affine, rect_keys, zero_rect};
use vstd::prelude::*;

verus! {

/// Identifier for a node in the tree.
///
/// This is a small, copyable handle that stays stable across updates but
/// becomes invalid when the underlying slot is reused. It consists of a
/// slot index and a generation counter.
///
/// - On insert, a fresh slot is allocated with generation `1`.
/// - On remove, the slot is freed; any `NodeId` that pointed to it is stale.
/// - On reuse of a freed slot, its generation is incremented, producing a
///   new, distinct `NodeId`.
///
/// A `NodeId` is newer than another when it has a higher generation, or
/// the same generation and a higher slot index. This total order is used
/// only for deterministic tie-breaks in hit testing.
#[derive(Copy, Clone, Debug, Eq, PartialEq, Hash)]
pub struct NodeId(pub u32, pub u32);

impl NodeId {
    /// Build the identifier of slot `idx` at `generation`.
    pub fn new(idx: u32, generation: u32) -> (r: Self)
        ensures
            r == NodeId(idx, generation),
    {
        NodeId(idx, generation)
    }

    /// The slot the identifier names.
    pub fn idx(self) -> (r: usize)
        ensures
            r == self.0,
    {
        self.0 as usize
    }

    /// The generation the identifier was issued for.
    pub fn generation(self) -> (r: u32)
        ensures
            r == self.1,
    {
        self.1
    }

    /// The order of recency: by generation, then by slot.
    pub open spec fn newer_than(self, other: NodeId) -> bool {
        self.1 > other.1 || (self.1 == other.1 && self.0 > other.0)
    }
}

/// Whether `a` is newer than `b`: of a higher generation, or of the same
/// generation and a higher slot.
pub fn id_is_newer(a: NodeId, b: NodeId) -> (r: bool)
    ensures
        r == a.newer_than(b),
{
    (a.1 > b.1) || (a.1 == b.1 && a.0 > b.0)
}

/// Two identifiers of one slot are ordered by generation alone, and the
/// order of recency is a strict total order.
pub proof fn lemma_newer_is_total_order(a: NodeId, b: NodeId, c: NodeId)
    ensures
        a.0 == b.0 ==> (a.newer_than(b) <==> a.1 > b.1),
        !a.newer_than(a),
        a != b ==> (a.newer_than(b) <==> !b.newer_than(a)),
        a.newer_than(b) && b.newer_than(c) ==> a.newer_than(c),
{
}

/// Node flags controlling visibility, picking, and focus behavior: a set
/// of the three flags below, held as bits.
#[derive(Clone, Copy, Debug, PartialEq, Eq, Hash)]
pub struct NodeFlags {
    /// The flags as bits; only the three lowest are used.
    pub bits: u8,
}

impl NodeFlags {
    /// Bit of the visible flag.
    pub const VISIBLE_BIT: u8 = 1;

    /// Bit of the pickable flag.
    pub const PICKABLE_BIT: u8 = 2;

    /// Bit of the focusable flag.
    pub const FOCUSABLE_BIT: u8 = 4;

    /// Node is visible (participates in rendering and intersection queries).
    pub fn visible() -> (r: Self)
        ensures
            r.bits == 1,
    {
        NodeFlags { bits: 1 }
    }

    /// Node is pickable (participates in hit testing).
    pub fn pickable() -> (r: Self)
        ensures
            r.bits == 2,
    {
        NodeFlags { bits: 2 }
    }

    /// Node is focusable (can receive keyboard focus).
    pub fn focusable() -> (r: Self)
        ensures
            r.bits == 4,
    {
        NodeFlags { bits: 4 }
    }

    /// Whether every flag of `other` is set in `self`.
    pub open spec fn has_all(self, other: NodeFlags) -> bool {
        self.bits & other.bits == other.bits
    }

    /// The flags set in either.
    pub open spec fn joined(self, other: NodeFlags) -> NodeFlags {
        NodeFlags { bits: self.bits | other.bits }
    }

    /// The empty set of flags.
    pub fn empty() -> (r: Self)
        ensures
            r.bits == 0,
    {
        NodeFlags { bits: 0 }
    }

    /// All three flags.
    pub fn all() -> (r: Self)
        ensures
            r.bits == 7,
    {
        NodeFlags { bits: 7 }
    }

    /// The flags as bits.
    pub fn bits(&self) -> (r: u8)
        ensures
            r == self.bits,
    {
        self.bits
    }

    /// The flags that `bits` names; bits that name no flag are dropped.
    pub fn from_bits_truncate(bits: u8) -> (r: Self)
        ensures
            r.bits == bits & 7,
    {
        NodeFlags { bits: bits & 7 }
    }

    /// Whether no flag is set.
    pub fn is_empty(&self) -> (r: bool)
        ensures
            r == (self.bits == 0),
    {
        self.bits == 0
    }

    /// Whether every flag of `other` is set in `self`.
    pub fn contains(&self, other: NodeFlags) -> (r: bool)
        ensures
            r == self.has_all(other),
    {
        self.bits & other.bits == other.bits
    }

    /// The flags set in either.
    pub fn union(self, other: NodeFlags) -> (r: Self)
        ensures
            r == self.joined(other),
    {
        NodeFlags { bits: self.bits | other.bits }
    }
}

impl core::ops::BitOr for NodeFlags {
    type Output = NodeFlags;

    fn bitor(self, rhs: NodeFlags) -> (r: NodeFlags) {
        NodeFlags { bits: self.bits | rhs.bits }
    }
}

impl vstd::std_specs::ops::BitOrSpecImpl for NodeFlags {
    open spec fn obeys_bitor_spec() -> bool {
        true
    }

    open spec fn bitor_req(self, rhs: NodeFlags) -> bool {
        true
    }

    open spec fn bitor_spec(self, rhs: NodeFlags) -> NodeFlags {
        self.joined(rhs)
    }
}

impl Default for NodeFlags {
    /// Visible and pickable.
    fn default() -> (r: Self)
        ensures
            r.bits == 3,
    {
        NodeFlags { bits: 3 }
    }
}

/// Local geometry for a node.
#[derive(Clone, Copy, Debug)]
pub struct LocalNode {
    /// Local (untransformed) bounds for this node's own content, in the
    /// node's own coordinate space. Children are not constrained by it.
    pub local_bounds: kurbo::Rect,
    /// Local transform from this node's coordinate space into its parent's.
    /// The world transform is `ancestors * local`: the local transform is
    /// applied first.
    pub local_transform: kurbo::Affine,
    /// Optional local clip applied to this node and its subtree, in the
    /// node's own coordinate space.
    pub local_clip: Option<kurbo::RoundedRect>,
    /// Z-order: higher values are on top.
    pub z_index: i32,
    /// Visibility and interaction flags.
    pub flags: NodeFlags,
}

impl Default for LocalNode {
    /// Zero bounds, the identity transform, no clip, z-index zero, visible
    /// and pickable.
    fn default() -> (r: Self)
        ensures
            rect_keys(r.local_bounds) == (0i64, 0i64, 0i64, 0i64),
            r.local_clip is None,
            r.z_index == 0,
            r.flags.bits == 3,
    {
        LocalNode {
            local_bounds: zero_rect(),
            local_transform: identity_affine(),
            local_clip: None,
            z_index: 0,
            flags: NodeFlags { bits: 3 },
        }
    }
}

/// World-space data of a node, derived at commit.
#[derive(Clone, Copy, Debug)]
pub struct WorldNode {
    /// Map from the node's local space into world space.
    pub world_transform: kurbo::Affine,
    /// Bounding box of the transformed, clipped local bounds.
    pub world_bounds: kurbo::Rect,
    /// The clip in force for the node, in world space.
    pub world_clip: Option<kurbo::Rect>,
}

/// What the next commit must derive again for a node. A new node has
/// every flag set, a change of local data sets the flags it concerns, and
/// a commit clears them all.
#[derive(Clone, Copy, Debug, PartialEq, Eq)]
pub struct Dirty {
    /// Local bounds changed.
    pub layout: bool,
    /// Local transform changed.
    pub transform: bool,
    /// Local clip changed.
    pub clip: bool,
    /// Z-index changed.
    pub z: bool,
    /// The spatial index needs the node's box again.
    pub index: bool,
}

impl Dirty {
    /// Every flag set.
    pub open spec fn all() -> Dirty {
        Dirty { layout: true, transform: true, clip: true, z: true, index: true }
    }

    /// No flag set.
    pub open spec fn none() -> Dirty {
        Dirty { layout: false, transform: false, clip: false, z: false, index: false }
    }

    /// The flags set in either.
    pub open spec fn joined(self, other: Dirty) -> Dirty {
        Dirty {
            layout: self.layout || other.layout,
            transform: self.transform || other.transform,
            clip: self.clip || other.clip,
            z: self.z || other.z,
            index: self.index || other.index,
        }
    }
}

/// Results of a hit test.
#[derive(Clone, Debug)]
pub struct Hit {
    /// The matched node.
    pub node: NodeId,
    /// Path from root to node (inclusive).
    pub path: Vec<NodeId>,
}

/// Filters applied during hit testing and rectangle intersection.
#[derive(Clone, Copy, Debug)]
pub struct QueryFilter {
    /// Flags a node must have, all of them, to take part in a query.
    pub required_flags: NodeFlags,
}

impl Default for QueryFilter {
    /// The filter that requires nothing.
    fn default() -> (r: Self)
        ensures
            r.required_flags.bits == 0,
    {
        QueryFilter { required_flags: NodeFlags { bits: 0 } }
    }
}

impl QueryFilter {
    /// Create a new empty filter (includes all nodes).
    pub fn new() -> (r: Self)
        ensures
            r.required_flags.bits == 0,
    {
        QueryFilter { required_flags: NodeFlags { bits: 0 } }
    }

    /// Filter to only visible nodes.
    pub fn visible(self) -> (r: Self)
        ensures
            r.required_flags == self.required_flags.joined(NodeFlags { bits: 1 }),
    {
        QueryFilter { required_flags: self.required_flags.union(NodeFlags::visible()) }
    }

    /// Filter to only pickable nodes.
    pub fn pickable(self) -> (r: Self)
        ensures
            r.required_flags == self.required_flags.joined(NodeFlags { bits: 2 }),
    {
        QueryFilter { required_flags: self.required_flags.union(NodeFlags::pickable()) }
    }

    /// Filter to only focusable nodes.
    pub fn focusable(self) -> (r: Self)
        ensures
            r.required_flags == self.required_flags.joined(NodeFlags { bits: 4 }),
    {
        QueryFilter { required_flags: self.required_flags.union(NodeFlags::focusable()) }
    }

    /// Check if a node's flags satisfy this filter: every required flag is
    /// among them.
    pub fn matches(&self, node_flags: NodeFlags) -> (r: bool)
        ensures
            r == node_flags.has_all(self.required_flags),
    {
        node_flags.contains(self.required_flags)
    }
}

} // verus!
