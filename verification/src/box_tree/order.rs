//! The orders in which the nodes of a subtree are taken. A commit takes
//! them in pre-order: a node, then the subtrees of its children in sibling
//! order. A removal takes them in post-order: the subtrees of the children
//! first, in sibling order, then the node.

use crate::box_tree::state::TreeState;
use crate::box_tree::tree::{views, Node};
use crate::box_tree::types::NodeId;
use crate::box_tree::walk::{
    lemma_bounded_distinct, lemma_walk_done, lemma_walk_step, parent_before, stacked, walk_inv,
};
use vstd::prelude::*;

verus! {

impl TreeState {
    /// The slots of the subtree of slot `j` in post-order: for each child
    /// of `j`, in sibling order, the slots of its subtree in post-order,
    /// and then `j`. `fuel` bounds the number of levels below `j` that are
    /// followed; the number of slots of the arena is enough for any
    /// subtree.
    pub open spec fn post_order(self, j: int, fuel: nat) -> Seq<usize>
        decreases fuel, 0nat,
    {
        if fuel == 0 {
            seq![j as usize]
        } else {
            self.post_orders(self.nodes[j]->0.children, (fuel - 1) as nat).push(j as usize)
        }
    }

    /// The post-orders of the subtrees of `kids`, one after the other.
    pub open spec fn post_orders(self, kids: Seq<NodeId>, fuel: nat) -> Seq<usize>
        decreases fuel, kids.len(),
    {
        if kids.len() == 0 {
            Seq::empty()
        } else {
            self.post_orders(kids.drop_last(), fuel) + self.post_order(kids.last().0 as int, fuel)
        }
    }

    /// The slots of the subtree of slot `j` in pre-order: `j`, and then for
    /// each child of `j`, in sibling order, the slots of its subtree in
    /// pre-order. `fuel` bounds the number of levels below `j` that are
    /// followed; the number of slots of the arena is enough for any
    /// subtree.
    pub open spec fn pre_order(self, j: int, fuel: nat) -> Seq<usize>
        decreases fuel, 0nat,
    {
        if fuel == 0 {
            seq![j as usize]
        } else {
            seq![j as usize] + self.pre_orders(self.nodes[j]->0.children, (fuel - 1) as nat)
        }
    }

    /// The pre-orders of the subtrees of `kids`, one after the other.
    pub open spec fn pre_orders(self, kids: Seq<NodeId>, fuel: nat) -> Seq<usize>
        decreases fuel, kids.len(),
    {
        if kids.len() == 0 {
            Seq::empty()
        } else {
            self.pre_order(kids.first().0 as int, fuel) + self.pre_orders(kids.drop_first(), fuel)
        }
    }

    /// Two arenas with the same child links give a subtree the same
    /// pre-order.
    pub proof fn lemma_same_pre_order(self, now: TreeState, j: int, fuel: nat)
        requires
            self.wf(),
            self.occupied(j),
            forall|x: int|
                self.occupied(x) ==> (#[trigger] now.nodes[x])->0.children
                    == self.nodes[x]->0.children,
        ensures
            now.pre_order(j, fuel) == self.pre_order(j, fuel),
        decreases fuel, 0nat,
    {
        if fuel > 0 {
            assert(self.children_ok(j));
            self.lemma_same_pre_orders(now, self.nodes[j]->0.children, (fuel - 1) as nat);
        }
    }

    /// Two arenas with the same child links give the subtrees of `kids`
    /// the same pre-orders.
    pub proof fn lemma_same_pre_orders(self, now: TreeState, kids: Seq<NodeId>, fuel: nat)
        requires
            self.wf(),
            forall|k: int| 0 <= k < kids.len() ==> self.alive(#[trigger] kids[k]),
            forall|x: int|
                self.occupied(x) ==> (#[trigger] now.nodes[x])->0.children
                    == self.nodes[x]->0.children,
        ensures
            now.pre_orders(kids, fuel) == self.pre_orders(kids, fuel),
        decreases fuel, kids.len(),
    {
        if kids.len() > 0 {
            assert(self.alive(kids[0]));
            self.lemma_same_pre_order(now, kids.first().0 as int, fuel);
            let rest = kids.drop_first();
            assert forall|k: int| 0 <= k < rest.len() implies self.alive(#[trigger] rest[k]) by {
                assert(rest[k] == kids[k + 1]);
            }
            self.lemma_same_pre_orders(now, rest, fuel);
        }
    }

    /// Whether slot `j` holds a root.
    pub open spec fn is_root(self, j: int) -> bool {
        self.occupied(j) && self.nodes[j]->0.parent is None
    }

    /// The slots in the order in which a commit takes them, as far as the
    /// roots in the slots below `upto` go: for each root, in slot order,
    /// its subtree in pre-order.
    pub open spec fn commit_order(self, upto: int) -> Seq<usize>
        decreases upto,
    {
        if upto <= 0 {
            Seq::empty()
        } else if self.is_root(upto - 1) {
            self.commit_order(upto - 1) + self.pre_order(upto - 1, self.nodes.len())
        } else {
            self.commit_order(upto - 1)
        }
    }

    /// The slots from the root above slot `j` down to `j`.
    pub open spec fn line_to(self, j: int, fuel: nat) -> Seq<usize>
        decreases fuel,
    {
        match self.nodes[j]->0.parent {
            Some(p) => if fuel > 0 {
                self.line_to(p.0 as int, (fuel - 1) as nat).push(j as usize)
            } else {
                seq![j as usize]
            },
            None => seq![j as usize],
        }
    }

    /// The line to a node holds one occupied slot for each depth up to
    /// the node's own.
    pub proof fn lemma_line_to(self, j: int, fuel: nat)
        requires
            self.wf(),
            self.occupied(j),
            fuel == self.depths[j],
        ensures
            self.line_to(j, fuel).len() == fuel + 1,
            forall|k: int|
                0 <= k <= fuel ==> self.occupied(#[trigger] self.line_to(j, fuel)[k] as int)
                    && self.depths[self.line_to(j, fuel)[k] as int] == k,
        decreases fuel,
    {
        assert(self.parent_ok(j));
        match self.nodes[j]->0.parent {
            Some(p) => {
                self.lemma_line_to(p.0 as int, (fuel - 1) as nat);
            },
            None => {},
        }
    }

    /// A node has fewer ancestors than the arena has slots.
    pub proof fn lemma_depth_bound(self, j: int)
        requires
            self.wf(),
            self.occupied(j),
        ensures
            self.depths[j] < self.nodes.len(),
    {
        let line = self.line_to(j, self.depths[j]);
        self.lemma_line_to(j, self.depths[j]);
        assert forall|a: int, b: int| 0 <= a < line.len() && 0 <= b < line.len() && a
            != b implies line[a] != line[b] by {
            assert(self.depths[line[a] as int] == a);
            assert(self.depths[line[b] as int] == b);
        }
        assert forall|k: int| 0 <= k < line.len() implies line[k] < self.nodes.len() by {
            assert(self.occupied(line[k] as int));
        }
        lemma_bounded_distinct(line, self.nodes.len());
    }
}

/// The reverse of a concatenation.
pub proof fn lemma_reverse_concat<A>(a: Seq<A>, b: Seq<A>)
    ensures
        (a + b).reverse() == b.reverse() + a.reverse(),
{
    assert((a + b).reverse() =~= b.reverse() + a.reverse());
}

/// `n` times `fuel`.
pub open spec fn repeated(fuel: nat, n: nat) -> Seq<nat> {
    Seq::new(n, |i: int| fuel)
}

/// What a walk has yet to put out, given its stack and the levels that
/// each slot on it may be followed: for each slot, from the top of the
/// stack down, the reverse of the post-order of its subtree.
pub open spec fn pending(st: TreeState, stack: Seq<usize>, fuels: Seq<nat>) -> Seq<usize>
    decreases stack.len(),
{
    if stack.len() == 0 {
        Seq::empty()
    } else {
        st.post_order(stack.last() as int, fuels.last()).reverse() + pending(
            st,
            stack.drop_last(),
            fuels.drop_last(),
        )
    }
}

/// Pushing the children of a node, in sibling order, adds to what is
/// pending the reverse of their post-orders.
pub proof fn lemma_pending_children(
    st: TreeState,
    base: Seq<usize>,
    fuels: Seq<nat>,
    kids: Seq<NodeId>,
    fuel: nat,
)
    requires
        base.len() == fuels.len(),
    ensures
        pending(st, base + stacked(kids, true), fuels + repeated(fuel, kids.len()))
            == st.post_orders(kids, fuel).reverse() + pending(st, base, fuels),
    decreases kids.len(),
{
    let stack2 = base + stacked(kids, true);
    let fuels2 = fuels + repeated(fuel, kids.len());
    if kids.len() == 0 {
        assert(stack2 =~= base);
        assert(fuels2 =~= fuels);
        assert(st.post_orders(kids, fuel).reverse() =~= Seq::<usize>::empty());
        assert(Seq::<usize>::empty() + pending(st, base, fuels) =~= pending(st, base, fuels));
    } else {
        let front = kids.drop_last();
        lemma_pending_children(st, base, fuels, front, fuel);
        assert(stack2.last() == kids.last().0 as usize);
        assert(fuels2.last() == fuel);
        assert(stack2.drop_last() =~= base + stacked(front, true));
        assert(fuels2.drop_last() =~= fuels + repeated(fuel, front.len()));
        let last = st.post_order(kids.last().0 as int, fuel);
        assert(stack2.last() as int == kids.last().0 as int);
        lemma_reverse_concat(st.post_orders(front, fuel), last);
        assert(pending(st, stack2, fuels2) == last.reverse() + (st.post_orders(
            front,
            fuel,
        ).reverse() + pending(st, base, fuels)));
        assert(last.reverse() + (st.post_orders(front, fuel).reverse() + pending(st, base, fuels))
            =~= (last.reverse() + st.post_orders(front, fuel).reverse()) + pending(
            st,
            base,
            fuels,
        ));
    }
}

/// What a walk in pre-order has yet to put out, given its stack and the
/// levels that each slot on it may be followed: for each slot, from the
/// top of the stack down, the pre-order of its subtree.
pub open spec fn pending_pre(st: TreeState, stack: Seq<usize>, fuels: Seq<nat>) -> Seq<usize>
    decreases stack.len(),
{
    if stack.len() == 0 {
        Seq::empty()
    } else {
        st.pre_order(stack.last() as int, fuels.last()) + pending_pre(
            st,
            stack.drop_last(),
            fuels.drop_last(),
        )
    }
}

/// Pushing the children of a node, last child first, adds to what is
/// pending their pre-orders.
pub proof fn lemma_pending_pre_children(
    st: TreeState,
    base: Seq<usize>,
    fuels: Seq<nat>,
    kids: Seq<NodeId>,
    fuel: nat,
)
    requires
        base.len() == fuels.len(),
    ensures
        pending_pre(st, base + stacked(kids, false), fuels + repeated(fuel, kids.len()))
            == st.pre_orders(kids, fuel) + pending_pre(st, base, fuels),
    decreases kids.len(),
{
    let stack2 = base + stacked(kids, false);
    let fuels2 = fuels + repeated(fuel, kids.len());
    if kids.len() == 0 {
        assert(stack2 =~= base);
        assert(fuels2 =~= fuels);
        assert(Seq::<usize>::empty() + pending_pre(st, base, fuels) =~= pending_pre(
            st,
            base,
            fuels,
        ));
    } else {
        let rest = kids.drop_first();
        lemma_pending_pre_children(st, base, fuels, rest, fuel);
        assert(stack2.last() == kids.first().0 as usize);
        assert(fuels2.last() == fuel);
        assert(stack2.drop_last() =~= base + stacked(rest, false));
        assert(fuels2.drop_last() =~= fuels + repeated(fuel, rest.len()));
        let head = st.pre_order(kids.first().0 as int, fuel);
        assert(stack2.last() as int == kids.first().0 as int);
        assert(pending_pre(st, stack2, fuels2) == head + (st.pre_orders(rest, fuel) + pending_pre(
            st,
            base,
            fuels,
        )));
        assert(head + (st.pre_orders(rest, fuel) + pending_pre(st, base, fuels)) =~= (head
            + st.pre_orders(rest, fuel)) + pending_pre(st, base, fuels));
    }
}

/// One step of a walk in pre-order: the top of the stack moves to the
/// output, its children take its place, and what is put out and what is
/// pending together stay the same.
pub proof fn lemma_pre_step(
    st: TreeState,
    root: int,
    stack: Seq<usize>,
    fuels: Seq<nat>,
    out: Seq<usize>,
) -> (fuels2: Seq<nat>)
    requires
        st.wf(),
        stack.len() > 0,
        fuels.len() == stack.len(),
        st.occupied(stack.last() as int),
        forall|a: int|
            0 <= a < stack.len() ==> (#[trigger] fuels[a]) + st.depths[stack[a] as int]
                == st.nodes.len() + st.depths[root],
    ensures
        fuels2.len() == stack.len() - 1 + st.nodes[stack.last() as int]->0.children.len(),
        forall|a: int|
            0 <= a < fuels2.len() ==> (#[trigger] fuels2[a]) + st.depths[(stack.drop_last()
                + stacked(st.nodes[stack.last() as int]->0.children, false))[a] as int]
                == st.nodes.len() + st.depths[root],
        out.push(stack.last()) + pending_pre(
            st,
            stack.drop_last() + stacked(st.nodes[stack.last() as int]->0.children, false),
            fuels2,
        ) == out + pending_pre(st, stack, fuels),
{
    let s = stack.last();
    let base = stack.drop_last();
    let kids = st.nodes[s as int]->0.children;
    let fuel = fuels.last();
    st.lemma_depth_bound(s as int);
    assert(fuels[stack.len() - 1] + st.depths[stack[stack.len() - 1] as int] == st.nodes.len()
        + st.depths[root]);
    assert(fuel >= 1);
    let fuels2 = fuels.drop_last() + repeated((fuel - 1) as nat, kids.len());
    lemma_pending_pre_children(st, base, fuels.drop_last(), kids, (fuel - 1) as nat);
    let below = st.pre_orders(kids, (fuel - 1) as nat);
    assert(st.pre_order(s as int, fuel) == seq![s] + below);
    assert(pending_pre(st, stack, fuels) == (seq![s] + below) + pending_pre(
        st,
        base,
        fuels.drop_last(),
    ));
    assert(out.push(s) + pending_pre(st, base + stacked(kids, false), fuels2) =~= out + pending_pre(
        st,
        stack,
        fuels,
    ));
    assert(st.children_ok(s as int));
    assert forall|a: int| 0 <= a < fuels2.len() implies (#[trigger] fuels2[a]) + st.depths[(base
        + stacked(kids, false))[a] as int] == st.nodes.len() + st.depths[root] by {
        if a < base.len() {
            assert(fuels2[a] == fuels[a]);
            assert(stack[a] == base[a]);
        } else {
            let c = kids[kids.len() - 1 - (a - base.len())];
            assert(st.alive(c));
            assert(st.parent_ok(c.0 as int));
        }
    }
    fuels2
}

/// One step of a walk in post-order: the top of the stack moves to the
/// output, its children take its place, and what is put out and what is
/// pending together stay the same.
pub proof fn lemma_post_step(
    st: TreeState,
    root: int,
    stack: Seq<usize>,
    fuels: Seq<nat>,
    out: Seq<usize>,
) -> (fuels2: Seq<nat>)
    requires
        st.wf(),
        stack.len() > 0,
        fuels.len() == stack.len(),
        st.occupied(stack.last() as int),
        forall|a: int|
            0 <= a < stack.len() ==> (#[trigger] fuels[a]) + st.depths[stack[a] as int]
                == st.nodes.len() + st.depths[root],
    ensures
        fuels2.len() == stack.len() - 1 + st.nodes[stack.last() as int]->0.children.len(),
        forall|a: int|
            0 <= a < fuels2.len() ==> (#[trigger] fuels2[a]) + st.depths[(stack.drop_last()
                + stacked(st.nodes[stack.last() as int]->0.children, true))[a] as int]
                == st.nodes.len() + st.depths[root],
        out.push(stack.last()) + pending(
            st,
            stack.drop_last() + stacked(st.nodes[stack.last() as int]->0.children, true),
            fuels2,
        ) == out + pending(st, stack, fuels),
{
    let s = stack.last();
    let base = stack.drop_last();
    let kids = st.nodes[s as int]->0.children;
    let fuel = fuels.last();
    st.lemma_depth_bound(s as int);
    assert(fuels[stack.len() - 1] + st.depths[stack[stack.len() - 1] as int] == st.nodes.len()
        + st.depths[root]);
    assert(fuel >= 1);
    let fuels2 = fuels.drop_last() + repeated((fuel - 1) as nat, kids.len());
    lemma_pending_children(st, base, fuels.drop_last(), kids, (fuel - 1) as nat);
    let below = st.post_orders(kids, (fuel - 1) as nat);
    assert(st.post_order(s as int, fuel) == below.push(s));
    assert(below.push(s).reverse() =~= seq![s] + below.reverse());
    assert(pending(st, stack, fuels) == below.push(s).reverse() + pending(st, base, fuels.drop_last()));
    assert(out.push(s) + pending(st, base + stacked(kids, true), fuels2) =~= out + pending(
        st,
        stack,
        fuels,
    ));
    assert(st.children_ok(s as int));
    assert forall|a: int| 0 <= a < fuels2.len() implies (#[trigger] fuels2[a]) + st.depths[(base
        + stacked(kids, true))[a] as int] == st.nodes.len() + st.depths[root] by {
        if a < base.len() {
            assert(fuels2[a] == fuels[a]);
            assert(stack[a] == base[a]);
        } else {
            let c = kids[a - base.len()];
            assert(st.alive(c));
            assert(st.parent_ok(c.0 as int));
        }
    }
    fuels2
}

/// A walk in post-order, carried on from where it stands to its end: the
/// whole output is what was put out followed by what was pending.
pub proof fn lemma_post_walk(
    st: TreeState,
    root: int,
    stack: Seq<usize>,
    fuels: Seq<nat>,
    out: Seq<usize>,
) -> (all: Seq<usize>)
    requires
        st.wf(),
        st.occupied(root),
        walk_inv(st, root, stack, out),
        fuels.len() == stack.len(),
        forall|a: int|
            0 <= a < stack.len() ==> (#[trigger] fuels[a]) + st.depths[stack[a] as int]
                == st.nodes.len() + st.depths[root],
    ensures
        walk_inv(st, root, Seq::empty(), all),
        all == out + pending(st, stack, fuels),
    decreases st.nodes.len() - out.len(),
{
    if stack.len() == 0 {
        assert(stack =~= Seq::<usize>::empty());
        assert(out + pending(st, stack, fuels) =~= out);
        out
    } else {
        lemma_walk_step(st, root, stack, out, true);
        let fuels2 = lemma_post_step(st, root, stack, fuels, out);
        lemma_post_walk(
            st,
            root,
            stack.drop_last() + stacked(st.nodes[stack.last() as int]->0.children, true),
            fuels2,
            out.push(stack.last()),
        )
    }
}

impl TreeState {
    /// The post-order of a subtree lists the slots of the subtree, each
    /// once.
    pub proof fn lemma_post_order(self, root: int)
        requires
            self.wf(),
            self.occupied(root),
        ensures
            self.post_order(root, self.nodes.len()).no_duplicates(),
            forall|j: usize|
                self.post_order(root, self.nodes.len()).contains(j) <==> self.in_subtree(
                    root,
                    j as int,
                ),
    {
        let stack = seq![root as usize];
        let fuels = seq![self.nodes.len()];
        let out = Seq::<usize>::empty();
        let whole = self.post_order(root, self.nodes.len());
        assert(self.under(root, root, self.depths[root]));
        assert(stack[0] == root as usize);
        assert(stack.contains(root as usize));
        assert forall|x: int|
            #![trigger self.in_subtree(root, x)]
            self.in_subtree(root, x) && !out.contains(x as usize) && !stack.contains(
                x as usize,
            ) implies x != root && !out.contains(self.parent_slot(x) as usize) by {
            if x == root {
                assert(stack[0] == x as usize);
            }
        }
        assert(walk_inv(self, root, stack, out));
        assert(stack.drop_last() =~= Seq::<usize>::empty());
        assert(fuels.drop_last() =~= Seq::<nat>::empty());
        assert(pending(self, stack.drop_last(), fuels.drop_last()) =~= Seq::<usize>::empty());
        assert(pending(self, stack, fuels) =~= whole.reverse());
        let all = lemma_post_walk(self, root, stack, fuels, out);
        assert(all =~= whole.reverse());
        lemma_walk_done(self, root, all);
        lemma_reverse_holds(all);
        lemma_reverse_holds(whole);
    }
}

/// The reverse of a sequence holds what the sequence holds, as often.
pub proof fn lemma_reverse_holds(s: Seq<usize>)
    ensures
        s.reverse().reverse() == s,
        s.no_duplicates() ==> s.reverse().no_duplicates(),
        forall|x: usize| s.reverse().contains(x) <==> s.contains(x),
{
    let r = s.reverse();
    assert(r.reverse() =~= s);
    assert forall|x: usize| r.contains(x) <==> s.contains(x) by {
        if r.contains(x) {
            let k = choose|k: int| 0 <= k < r.len() && r[k] == x;
            assert(s[s.len() - 1 - k] == x);
        }
        if s.contains(x) {
            let k = choose|k: int| 0 <= k < s.len() && s[k] == x;
            assert(r[s.len() - 1 - k] == x);
        }
    }
    if s.no_duplicates() {
        assert forall|a: int, b: int| 0 <= a < r.len() && 0 <= b < r.len() && a != b implies r[a]
            != r[b] by {
            assert(r[a] == s[s.len() - 1 - a]);
            assert(r[b] == s[s.len() - 1 - b]);
        }
    }
}

/// The sequence in reverse order.
pub fn reversed_slots(v: &Vec<usize>) -> (r: Vec<usize>)
    ensures
        r@ == v@.reverse(),
{
    let mut r: Vec<usize> = Vec::new();
    let mut i: usize = v.len();
    while i > 0
        invariant
            i <= v.len(),
            r.len() == v.len() - i,
            forall|k: int| 0 <= k < r.len() ==> r[k] == v[v.len() - 1 - k],
        decreases i,
    {
        i -= 1;
        r.push(v[i]);
    }
    assert(r@ =~= v@.reverse());
    r
}

/// The slots of the subtree rooted in slot `root` in pre-order: each
/// once, every node before the subtrees of its children, which come in
/// sibling order.
pub fn preorder(nodes: &Vec<Option<Node>>, root: usize, Ghost(st): Ghost<TreeState>) -> (out: Vec<
    usize,
>)
    requires
        st.wf(),
        st.nodes == views(nodes@),
        st.occupied(root as int),
    ensures
        out@ == st.pre_order(root as int, st.nodes.len()),
        out@.no_duplicates(),
        forall|j: usize| out@.contains(j) <==> st.in_subtree(root as int, j as int),
        out.len() > 0,
        out[0] == root,
        forall|k: int| 0 < k < out.len() ==> #[trigger] parent_before(st, out@, k),
{
    let n = nodes.len();
    let mut out: Vec<usize> = Vec::new();
    let mut stack: Vec<usize> = Vec::new();
    stack.push(root);
    let ghost mut fuels: Seq<nat> = seq![n as nat];
    let ghost whole = st.pre_order(root as int, n as nat);
    proof {
        assert(stack@ =~= seq![root]);
        assert(st.under(root as int, root as int, st.depths[root as int]));
        assert(stack@[0] == root);
        assert(stack@.contains(root));
        assert(!out@.contains(root));
        assert(out@ =~= Seq::<usize>::empty());
        assert forall|x: int|
            #![trigger st.in_subtree(root as int, x)]
            st.in_subtree(root as int, x) && !out@.contains(x as usize) && !stack@.contains(
                x as usize,
            ) implies x != root && !out@.contains(st.parent_slot(x) as usize) by {
            if x == root as int {
                assert(stack@[0] == x as usize);
            }
        }
        assert(walk_inv(st, root as int, stack@, out@));
        assert(stack@.drop_last() =~= Seq::<usize>::empty());
        assert(fuels.drop_last() =~= Seq::<nat>::empty());
        assert(stack@.last() == root && fuels.last() == n);
        assert(pending_pre(st, stack@.drop_last(), fuels.drop_last()) =~= Seq::<usize>::empty());
        assert(pending_pre(st, stack@, fuels) =~= whole);
        assert(out@ + pending_pre(st, stack@, fuels) =~= whole);
    }
    while stack.len() > 0
        invariant
            st.wf(),
            st.nodes == views(nodes@),
            st.occupied(root as int),
            n == nodes.len(),
            walk_inv(st, root as int, stack@, out@),
            fuels.len() == stack.len(),
            forall|a: int|
                0 <= a < stack.len() ==> (#[trigger] fuels[a]) + st.depths[stack[a] as int] == n
                    + st.depths[root as int],
            out@ + pending_pre(st, stack@, fuels) == whole,
        decreases n - out.len(),
    {
        let ghost stack0 = stack@;
        let ghost out0 = out@;
        let ghost fuels0 = fuels;
        proof {
            lemma_walk_step(st, root as int, stack0, out0, false);
        }
        let s = stack.pop().unwrap();
        out.push(s);
        let ghost base = stack@;
        let ghost kids = st.nodes[s as int]->0.children;
        assert(nodes@[s as int] is Some) by {
            assert(st.nodes[s as int] == crate::box_tree::tree::view_of(nodes@[s as int]));
        }
        proof {
            fuels = lemma_pre_step(st, root as int, stack0, fuels0, out0);
        }
        match &nodes[s] {
            Some(node) => {
                let len = node.children.len();
                assert(kids == node.children@);
                let mut c: usize = len;
                while c > 0
                    invariant
                        kids == node.children@,
                        len == kids.len(),
                        c <= len,
                        stack@ == base + stacked(kids, false).take(len - c),
                    decreases c,
                {
                    c -= 1;
                    let child = node.children[c];
                    stack.push(child.idx());
                    proof {
                        let r = stacked(kids, false);
                        assert(r.take(len - c) == r.take(len - c - 1).push(r[len - c - 1]));
                        assert(r[len - c - 1] == kids[c as int].0 as usize);
                    }
                }
                assert(stacked(kids, false).take(len as int) == stacked(kids, false));
            },
            None => {},
        }
    }
    proof {
        assert(stack@ =~= Seq::<usize>::empty());
        lemma_walk_done(st, root as int, out@);
        assert(out@ + pending_pre(st, stack@, fuels) =~= out@);
    }
    out
}

/// The slots of the subtree rooted in slot `root` in post-order: each
/// once, every node after the subtrees of its children, which come in
/// sibling order.
pub fn postorder(nodes: &Vec<Option<Node>>, root: usize, Ghost(st): Ghost<TreeState>) -> (out: Vec<
    usize,
>)
    requires
        st.wf(),
        st.nodes == views(nodes@),
        st.occupied(root as int),
    ensures
        out@ == st.post_order(root as int, st.nodes.len()),
        out@.no_duplicates(),
        forall|j: usize| out@.contains(j) <==> st.in_subtree(root as int, j as int),
{
    let n = nodes.len();
    let mut out: Vec<usize> = Vec::new();
    let mut stack: Vec<usize> = Vec::new();
    stack.push(root);
    let ghost mut fuels: Seq<nat> = seq![n as nat];
    let ghost whole = st.post_order(root as int, n as nat).reverse();
    proof {
        assert(stack@ =~= seq![root]);
        assert(st.under(root as int, root as int, st.depths[root as int]));
        assert(stack@[0] == root);
        assert(stack@.contains(root));
        assert(out@ =~= Seq::<usize>::empty());
        assert forall|x: int|
            #![trigger st.in_subtree(root as int, x)]
            st.in_subtree(root as int, x) && !out@.contains(x as usize) && !stack@.contains(
                x as usize,
            ) implies x != root && !out@.contains(st.parent_slot(x) as usize) by {
            if x == root as int {
                assert(stack@[0] == x as usize);
            }
        }
        assert(walk_inv(st, root as int, stack@, out@));
        assert(stack@.drop_last() =~= Seq::<usize>::empty());
        assert(fuels.drop_last() =~= Seq::<nat>::empty());
        assert(stack@.last() == root && fuels.last() == n);
        assert(pending(st, stack@.drop_last(), fuels.drop_last()) =~= Seq::<usize>::empty());
        assert(pending(st, stack@, fuels) =~= whole);
        assert(out@ + pending(st, stack@, fuels) =~= whole);
    }
    while stack.len() > 0
        invariant
            st.wf(),
            st.nodes == views(nodes@),
            st.occupied(root as int),
            n == nodes.len(),
            walk_inv(st, root as int, stack@, out@),
            fuels.len() == stack.len(),
            forall|a: int|
                0 <= a < stack.len() ==> (#[trigger] fuels[a]) + st.depths[stack[a] as int] == n
                    + st.depths[root as int],
            out@ + pending(st, stack@, fuels) == whole,
        decreases n - out.len(),
    {
        let ghost stack0 = stack@;
        let ghost out0 = out@;
        let ghost fuels0 = fuels;
        proof {
            lemma_walk_step(st, root as int, stack0, out0, true);
        }
        let s = stack.pop().unwrap();
        out.push(s);
        let ghost base = stack@;
        let ghost kids = st.nodes[s as int]->0.children;
        assert(nodes@[s as int] is Some) by {
            assert(st.nodes[s as int] == crate::box_tree::tree::view_of(nodes@[s as int]));
        }
        proof {
            fuels = lemma_post_step(st, root as int, stack0, fuels0, out0);
        }
        match &nodes[s] {
            Some(node) => {
                let len = node.children.len();
                assert(kids == node.children@);
                let mut c: usize = 0;
                while c < len
                    invariant
                        kids == node.children@,
                        len == kids.len(),
                        c <= len,
                        stack@ == base + stacked(kids, true).take(c as int),
                    decreases len - c,
                {
                    let child = node.children[c];
                    stack.push(child.idx());
                    proof {
                        let r = stacked(kids, true);
                        assert(r.take(c + 1) == r.take(c as int).push(r[c as int]));
                        assert(r[c as int] == kids[c as int].0 as usize);
                    }
                    c += 1;
                }
                assert(stacked(kids, true).take(len as int) == stacked(kids, true));
            },
            None => {},
        }
    }
    proof {
        assert(stack@ =~= Seq::<usize>::empty());
        lemma_walk_done(st, root as int, out@);
        assert(out@ + pending(st, stack@, fuels) =~= out@);
        lemma_reverse_holds(out@);
        lemma_reverse_holds(st.post_order(root as int, n as nat));
    }
    reversed_slots(&out)
}

} // verus!
