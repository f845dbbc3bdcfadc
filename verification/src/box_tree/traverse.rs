//! Depth-first order over the tree: the node after and the node before a
//! given one in pre-order.

use crate::box_tree::state::TreeState;
use crate::box_tree::types::NodeId;
use vstd::prelude::*;

verus! {

impl TreeState {
    /// The sibling after the node in slot `i`, if it has a parent and is
    /// not its last child.
    pub open spec fn sibling_after(self, i: int) -> Option<NodeId> {
        match self.nodes[i]->0.parent {
            Some(p) => {
                let kids = self.node(p).children;
                let pos = kids.index_of(self.id_at(i));
                if pos + 1 < kids.len() {
                    Some(kids[pos + 1])
                } else {
                    None
                }
            },
            None => None,
        }
    }

    /// The sibling before the node in slot `i`, if it has a parent and is
    /// not its first child.
    pub open spec fn sibling_before(self, i: int) -> Option<NodeId> {
        match self.nodes[i]->0.parent {
            Some(p) => {
                let kids = self.node(p).children;
                let pos = kids.index_of(self.id_at(i));
                if pos > 0 {
                    Some(kids[pos - 1])
                } else {
                    None
                }
            },
            None => None,
        }
    }

    /// The next sibling of the nearest of slot `i` and its ancestors that
    /// has one.
    pub open spec fn next_above(self, i: int, fuel: nat) -> Option<NodeId>
        decreases fuel,
    {
        match self.nodes[i]->0.parent {
            Some(p) => match self.sibling_after(i) {
                Some(s) => Some(s),
                None => if fuel > 0 {
                    self.next_above(p.0 as int, (fuel - 1) as nat)
                } else {
                    None
                },
            },
            None => None,
        }
    }

    /// The node after a live `id` in pre-order: its first child; else the
    /// next sibling of the nearest of the node and its ancestors that has
    /// one; else none.
    pub open spec fn next_in_order(self, id: NodeId) -> Option<NodeId> {
        let n = self.node(id);
        if n.children.len() > 0 {
            Some(n.children[0])
        } else {
            self.next_above(id.0 as int, self.depths[id.0 as int])
        }
    }

    /// The last node of the subtree of slot `i` in pre-order: the last
    /// child of the last child, and so on, for at most `fuel` levels.
    pub open spec fn last_below(self, i: int, fuel: nat) -> NodeId
        decreases fuel,
    {
        let n = self.nodes[i]->0;
        if n.children.len() > 0 && fuel > 0 {
            self.last_below(n.children.last().0 as int, (fuel - 1) as nat)
        } else {
            self.id_at(i)
        }
    }

    /// The node before a live `id` in pre-order: the last node of the
    /// subtree of its previous sibling; else its parent; else none. The
    /// descent goes as many levels as the arena has slots, which is at
    /// least as many as the tree has.
    pub open spec fn prev_in_order(self, id: NodeId) -> Option<NodeId> {
        match self.sibling_before(id.0 as int) {
            Some(s) => Some(self.last_below(s.0 as int, self.nodes.len())),
            None => self.node(id).parent,
        }
    }

    /// Where a node stands among the children of its parent.
    pub proof fn lemma_position(self, i: int, pos: int)
        requires
            self.wf(),
            self.occupied(i),
            self.nodes[i]->0.parent is Some,
            0 <= pos < self.node(self.nodes[i]->0.parent->0).children.len(),
            self.node(self.nodes[i]->0.parent->0).children[pos] == self.id_at(i),
        ensures
            self.node(self.nodes[i]->0.parent->0).children.index_of(self.id_at(i)) == pos,
    {
        let p = self.nodes[i]->0.parent->0;
        assert(self.parent_ok(i));
        assert(self.children_ok(p.0 as int));
        let kids = self.node(p).children;
        let found = kids.index_of(self.id_at(i));
        assert(0 <= found < kids.len() && kids[found] == self.id_at(i));
    }
}

} // verus!
