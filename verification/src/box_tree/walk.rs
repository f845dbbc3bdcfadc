//! Walking a subtree: every node of it once, parents before children.

use crate::box_tree::state::TreeState;
use crate::box_tree::types::NodeId;
use vstd::prelude::*;

verus! {

/// Distinct numbers below `n` are at most `n` many.
pub proof fn lemma_bounded_distinct(s: Seq<usize>, n: nat)
    requires
        s.no_duplicates(),
        forall|k: int| 0 <= k < s.len() ==> s[k] < n,
    ensures
        s.len() <= n,
    decreases n,
{
    if s.len() > 0 {
        if n == 0 {
            assert(s[0] < n);
        } else if exists|k: int| 0 <= k < s.len() && s[k] == n - 1 {
            let k = choose|k: int| 0 <= k < s.len() && s[k] == n - 1;
            let t = s.remove(k);
            assert forall|a: int| 0 <= a < t.len() implies t[a] < n - 1 by {
                if a < k {
                    assert(t[a] == s[a]);
                    assert(s[a] != s[k]);
                } else {
                    assert(t[a] == s[a + 1]);
                    assert(s[a + 1] != s[k]);
                }
            }
            assert forall|a: int, b: int| 0 <= a < t.len() && 0 <= b < t.len() && a != b implies t[a]
                != t[b] by {
                let a2 = if a < k { a } else { a + 1 };
                let b2 = if b < k { b } else { b + 1 };
                assert(t[a] == s[a2]);
                assert(t[b] == s[b2]);
            }
            lemma_bounded_distinct(t, (n - 1) as nat);
        } else {
            assert forall|k: int| 0 <= k < s.len() implies s[k] < n - 1 by {
                assert(s[k] < n);
            }
            lemma_bounded_distinct(s, (n - 1) as nat);
        }
    }
}

impl TreeState {
    /// A node of a subtree is at least as deep as the subtree's root, and
    /// the root's own ancestors are outside the subtree.
    pub proof fn lemma_under_depth(self, r: int, j: int, fuel: nat)
        requires
            self.wf(),
            self.occupied(r),
            self.occupied(j),
            fuel == self.depths[j],
            self.under(r, j, fuel),
        ensures
            self.depths[j] >= self.depths[r],
            self.depths[j] == self.depths[r] ==> j == r,
        decreases fuel,
    {
        if j != r {
            assert(self.parent_ok(j));
            let p = self.nodes[j]->0.parent->0;
            self.lemma_under_depth(r, p.0 as int, (fuel - 1) as nat);
        }
    }

    /// A child of a node of a subtree is in the subtree.
    pub proof fn lemma_child_in_subtree(self, r: int, p: int, c: int)
        requires
            self.wf(),
            self.in_subtree(r, p),
            self.occupied(c),
            self.nodes[c]->0.parent == Some(self.id_at(p)),
        ensures
            self.in_subtree(r, c),
            c != r,
    {
        assert(self.parent_ok(c));
        assert(self.under(r, c, self.depths[c]));
        if self.occupied(r) {
            self.lemma_under_depth(r, p, self.depths[p]);
        }
    }

    /// A set of slots that holds the subtree's root, and with every node
    /// of the subtree it holds also the node's children, holds the whole
    /// subtree.
    pub proof fn lemma_subtree_covered(self, r: int, seen: Set<int>, j: int, fuel: nat)
        requires
            self.wf(),
            seen.contains(r),
            forall|x: int|
                self.in_subtree(r, x) && !seen.contains(x) ==> x != r && !seen.contains(
                    #[trigger] self.parent_slot(x),
                ),
            self.occupied(j),
            fuel == self.depths[j],
            self.under(r, j, fuel),
        ensures
            seen.contains(j),
        decreases fuel,
    {
        if j != r {
            assert(self.parent_ok(j));
            let p = self.nodes[j]->0.parent->0;
            self.lemma_subtree_covered(r, seen, p.0 as int, (fuel - 1) as nat);
            assert(self.in_subtree(r, j));
            if !seen.contains(j) {
                assert(!seen.contains(self.parent_slot(j)));
            }
        }
    }
}

/// The position among `len` children of the child pushed `i`-th: the
/// `i`-th child where they are pushed in sibling order, and the `i`-th from
/// the end where the last child is pushed first.
pub open spec fn child_at(len: int, forward: bool, i: int) -> int {
    if forward {
        i
    } else {
        len - 1 - i
    }
}

/// The slots of `kids` as they are pushed: in sibling order where
/// `forward`, last child first otherwise.
pub open spec fn stacked(kids: Seq<NodeId>, forward: bool) -> Seq<usize> {
    Seq::new(kids.len(), |i: int| kids[child_at(kids.len() as int, forward, i)].0 as usize)
}

/// What holds of the stack and the output while a subtree is walked.
///
/// Both hold distinct slots of the subtree, and share none. The output
/// starts with the root and lists every node after its parent; every slot
/// on the stack has its parent in the output, or is the root. A slot of the
/// subtree that is in neither has a parent that is not yet in the output.
pub open spec fn walk_inv(st: TreeState, root: int, stack: Seq<usize>, out: Seq<usize>) -> bool {
    &&& stack.no_duplicates()
    &&& out.no_duplicates()
    &&& forall|a: int, b: int| 0 <= a < stack.len() && 0 <= b < out.len() ==> stack[a] != out[b]
    &&& forall|a: int| 0 <= a < stack.len() ==> st.in_subtree(root, #[trigger] stack[a] as int)
    &&& forall|b: int| 0 <= b < out.len() ==> st.in_subtree(root, #[trigger] out[b] as int)
    &&& forall|a: int|
        0 <= a < stack.len() ==> (#[trigger] stack[a]) == root || out.contains(
            st.parent_slot(stack[a] as int) as usize,
        )
    &&& out.len() == 0 ==> stack == seq![root as usize]
    &&& out.len() > 0 ==> out[0] == root
    &&& forall|k: int| 0 < k < out.len() ==> #[trigger] parent_before(st, out, k)
    &&& forall|x: int|
        #![trigger st.in_subtree(root, x)]
        st.in_subtree(root, x) && !out.contains(x as usize) && !stack.contains(x as usize) ==> x
            != root && !out.contains(st.parent_slot(x) as usize)
}

/// The parent of the node at position `k` of `out` stands before it.
pub open spec fn parent_before(st: TreeState, out: Seq<usize>, k: int) -> bool {
    exists|m: int|
        0 <= m < k && st.nodes[out[k] as int]->0.parent == Some(st.id_at(#[trigger] out[m] as int))
}

/// One step of the walk: the top of the stack moves to the output and its
/// children take its place.
pub proof fn lemma_walk_step(
    st: TreeState,
    root: int,
    stack: Seq<usize>,
    out: Seq<usize>,
    forward: bool,
)
    requires
        st.wf(),
        st.occupied(root),
        0 <= root <= usize::MAX,
        walk_inv(st, root, stack, out),
        stack.len() > 0,
    ensures
        st.occupied(stack.last() as int),
        out.len() < st.nodes.len(),
        walk_inv(
            st,
            root,
            stack.drop_last() + stacked(st.nodes[stack.last() as int]->0.children, forward),
            out.push(stack.last()),
        ),
{
    let s = stack.last();
    let base = stack.drop_last();
    let kids = st.nodes[s as int]->0.children;
    let pushed = stacked(kids, forward);
    let stack2 = base + pushed;
    let out2 = out.push(s);
    let n = st.nodes.len();
    assert(stack[stack.len() - 1] == s);
    assert(st.in_subtree(root, s as int));
    assert(st.children_ok(s as int));
    assert forall|b: int| 0 <= b < out.len() implies out[b] != s by {
        assert(stack[stack.len() - 1] != out[b]);
    }
    assert(!out.contains(s));
    assert forall|k: int| 0 <= k < out2.len() implies out2[k] < n by {
        if k < out.len() {
            assert(st.in_subtree(root, out[k] as int));
        }
    }
    lemma_bounded_distinct(out2, n);
    // Facts about each child of `s`.
    assert forall|k: int| 0 <= k < kids.len() implies {
        let c = (#[trigger] kids[k]).0 as int;
        &&& st.in_subtree(root, c)
        &&& c != root
        &&& c != s
        &&& st.occupied(c)
        &&& st.parent_slot(c) == s
        &&& !out.contains(c as usize)
        &&& !base.contains(c as usize)
    } by {
        let child = kids[k];
        let c = child.0 as int;
        assert(st.alive(child));
        assert(st.node(child).parent == Some(st.id_at(s as int)));
        st.lemma_child_in_subtree(root, s as int, c);
        assert(st.parent_ok(c));
        if out.contains(c as usize) {
            let w = choose|w: int| 0 <= w < out.len() && out[w] == c as usize;
            if w == 0 {
                assert(out[0] == root);
            } else {
                assert(parent_before(st, out, w));
                let m = choose|m: int|
                    0 <= m < w && st.nodes[out[w] as int]->0.parent == Some(
                        st.id_at(#[trigger] out[m] as int),
                    );
                assert(out[m] == s);
            }
        }
        if base.contains(c as usize) {
            let w = choose|w: int| 0 <= w < base.len() && base[w] == c as usize;
            assert(stack[w] == c as usize);
            assert(out.contains(st.parent_slot(stack[w] as int) as usize));
        }
    }
    assert(stack2.no_duplicates()) by {
        assert forall|a: int, b: int| 0 <= a < stack2.len() && 0 <= b < stack2.len() && a
            != b implies stack2[a] != stack2[b] by {
            if a < base.len() && b < base.len() {
                assert(stack[a] != stack[b]);
            } else if a < base.len() {
                let k = child_at(kids.len() as int, forward, b - base.len());
                assert(stack2[b] == kids[k].0 as usize);
                assert(base[a] == stack2[a]);
                assert(base.contains(stack2[a]));
            } else if b < base.len() {
                let k = child_at(kids.len() as int, forward, a - base.len());
                assert(stack2[a] == kids[k].0 as usize);
                assert(base[b] == stack2[b]);
                assert(base.contains(stack2[b]));
            } else {
                let ka = child_at(kids.len() as int, forward, a - base.len());
                let kb = child_at(kids.len() as int, forward, b - base.len());
                assert(stack2[a] == kids[ka].0 as usize);
                assert(stack2[b] == kids[kb].0 as usize);
                assert(kids[ka] != kids[kb]);
                assert(st.alive(kids[ka]));
                assert(st.alive(kids[kb]));
            }
        }
    }
    assert(out2.no_duplicates());
    assert forall|a: int, b: int| 0 <= a < stack2.len() && 0 <= b < out2.len() implies stack2[a]
        != out2[b] by {
        if a < base.len() {
            assert(stack2[a] == stack[a]);
            if b < out.len() {
                assert(stack[a] != out[b]);
            } else {
                assert(stack[a] != stack[stack.len() - 1]);
            }
        } else {
            let k = child_at(kids.len() as int, forward, a - base.len());
            assert(stack2[a] == kids[k].0 as usize);
            if b < out.len() {
                assert(out.contains(out[b]));
            }
        }
    }
    assert forall|a: int| 0 <= a < stack2.len() implies st.in_subtree(
        root,
        #[trigger] stack2[a] as int,
    ) by {
        if a < base.len() {
            assert(stack2[a] == stack[a]);
        } else {
            let k = child_at(kids.len() as int, forward, a - base.len());
            assert(stack2[a] == kids[k].0 as usize);
        }
    }
    assert forall|b: int| 0 <= b < out2.len() implies st.in_subtree(
        root,
        #[trigger] out2[b] as int,
    ) by {
        if b < out.len() {
            assert(out2[b] == out[b]);
        }
    }
    assert forall|a: int| 0 <= a < stack2.len() implies (#[trigger] stack2[a]) == root
        || out2.contains(st.parent_slot(stack2[a] as int) as usize) by {
        if a < base.len() {
            assert(stack2[a] == stack[a]);
            if stack[a] != root {
                let pp = st.parent_slot(stack[a] as int) as usize;
                let w = choose|w: int| 0 <= w < out.len() && out[w] == pp;
                assert(out2[w] == pp);
            }
        } else {
            let k = child_at(kids.len() as int, forward, a - base.len());
            assert(stack2[a] == kids[k].0 as usize);
            assert(out2[out.len() as int] == s);
        }
    }
    assert(out2[0] == root) by {
        if out.len() == 0 {
            assert(stack[0] == root);
        } else {
            assert(out2[0] == out[0]);
        }
    }
    assert forall|k: int| 0 < k < out2.len() implies #[trigger] parent_before(st, out2, k) by {
        if k < out.len() {
            assert(parent_before(st, out, k));
            let m = choose|m: int|
                0 <= m < k && st.nodes[out[k] as int]->0.parent == Some(
                    st.id_at(#[trigger] out[m] as int),
                );
            assert(out2[m] == out[m]);
            assert(out2[k] == out[k]);
        } else {
            assert(out.len() > 0);
            assert(s != root) by {
                if s == root {
                    assert(out[0] == root);
                }
            }
            let ps = st.parent_slot(s as int) as usize;
            assert(out.contains(ps));
            let m = choose|m: int| 0 <= m < out.len() && out[m] == ps;
            assert(st.parent_ok(s as int));
            assert(out2[m] == ps);
            assert(st.id_at(ps as int) == st.nodes[s as int]->0.parent->0);
        }
    }
    assert forall|x: int|
        #![trigger st.in_subtree(root, x)]
        st.in_subtree(root, x) && !out2.contains(x as usize) && !stack2.contains(
            x as usize,
        ) implies x != root && !out2.contains(st.parent_slot(x) as usize) by {
        assert(out2[out.len() as int] == s);
        assert(x != s);
        assert(!out.contains(x as usize)) by {
            if out.contains(x as usize) {
                let w = choose|w: int| 0 <= w < out.len() && out[w] == x as usize;
                assert(out2[w] == x as usize);
            }
        }
        assert(!stack.contains(x as usize)) by {
            if stack.contains(x as usize) {
                let w = choose|w: int| 0 <= w < stack.len() && stack[w] == x as usize;
                assert(w < base.len());
                assert(stack2[w] == x as usize);
            }
        }
        let px = st.parent_slot(x) as usize;
        assert(x != root && !out.contains(px));
        if out2.contains(px) {
            let w = choose|w: int| 0 <= w < out2.len() && out2[w] == px;
            if w < out.len() {
                assert(out[w] == px);
            }
            assert(px == s);
            assert(st.parent_ok(x));
            assert(st.nodes[x]->0.parent->0 == st.id_at(s as int));
            let k = choose|k: int| 0 <= k < kids.len() && kids[k] == st.id_at(x);
            let a = base.len() + child_at(kids.len() as int, forward, k);
            assert(stack2[a] == kids[k].0 as usize);
        }
    }
}

/// At the end of the walk the output is the subtree.
pub proof fn lemma_walk_done(st: TreeState, root: int, out: Seq<usize>)
    requires
        st.wf(),
        st.occupied(root),
        walk_inv(st, root, Seq::<usize>::empty(), out),
    ensures
        out.len() > 0,
        out[0] == root,
        forall|j: usize| out.contains(j) <==> st.in_subtree(root, j as int),
{
    let empty = Seq::<usize>::empty();
    if out.len() == 0 {
        assert(empty == seq![root as usize]);
        assert(seq![root as usize].len() == 1);
    }
    let seen = Set::new(|x: int| 0 <= x < st.nodes.len() && out.contains(x as usize));
    assert(out.contains(out[0]));
    assert(st.in_subtree(root, out[0] as int));
    assert forall|j: usize| st.in_subtree(root, j as int) implies out.contains(j) by {
        assert forall|x: int| st.in_subtree(root, x) && !seen.contains(x) implies x != root
            && !seen.contains(#[trigger] st.parent_slot(x)) by {
            assert(!out.contains(x as usize));
            assert(!empty.contains(x as usize));
        }
        st.lemma_subtree_covered(root, seen, j as int, st.depths[j as int]);
    }
    assert forall|j: usize| out.contains(j) implies st.in_subtree(root, j as int) by {
        let w = choose|w: int| 0 <= w < out.len() && out[w] == j;
        assert(st.in_subtree(root, out[w] as int));
    }
}

} // verus!
