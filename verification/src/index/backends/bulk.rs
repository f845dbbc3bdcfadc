//! Building a hierarchy in bulk: items are sorted into tiles and packed
//! into leaves, and the leaves into parents, level by level.

use crate::index::backends::hierarchy::{HNode, Item};
use crate::index::backends::sah::{lemma_permutation_covers, order_by_centre, permutes};
use crate::index::types::{ordered, Aabb2D, Scalar};
use crate::index::util::isqrt_ceil;
use vstd::prelude::*;

verus! {

/// Whether no slot occurs twice among `items`.
pub open spec fn distinct_slots<T>(items: Seq<Item<T>>) -> bool {
    forall|a: int, b: int| 0 <= a < b < items.len() ==> items[a].slot != items[b].slot
}

/// Whether the nodes are well formed and no slot occurs beneath two of
/// them.
pub open spec fn forest_ok<T: Scalar>(nodes: Seq<HNode<T>>) -> bool {
    &&& forall|j: int| 0 <= j < nodes.len() ==> (#[trigger] nodes[j]).wf()
    &&& forall|i: int, j: int, s: usize|
        #![trigger nodes[i].has_slot(s), nodes[j].has_slot(s)]
        0 <= i < j < nodes.len() ==> !(nodes[i].has_slot(s) && nodes[j].has_slot(s))
}

/// Whether no node among or beneath `nodes` holds more than `max_items`
/// items or more than `max_kids` children.
pub open spec fn forest_within<T: Scalar>(
    nodes: Seq<HNode<T>>,
    max_items: usize,
    max_kids: usize,
) -> bool {
    forall|j: int| 0 <= j < nodes.len() ==> (#[trigger] nodes[j]).within(max_items, max_kids)
}

/// Whether `x` lies in or beneath one of the nodes.
pub open spec fn forest_has<T: Scalar>(nodes: Seq<HNode<T>>, x: Item<T>) -> bool {
    exists|j: int| 0 <= j < nodes.len() && (#[trigger] nodes[j]).content().contains(x)
}

/// The items at the positions that `order` lists, in that order.
pub fn arrange<T: Scalar>(items: &Vec<Item<T>>, order: &Vec<usize>) -> (out: Vec<Item<T>>)
    requires
        permutes(order@, items.len() as nat),
        distinct_slots(items@),
    ensures
        out.len() == items.len(),
        distinct_slots(out@),
        forall|x: Item<T>| #[trigger] out@.contains(x) <==> items@.contains(x),
{
    let n = items.len();
    let mut out: Vec<Item<T>> = Vec::new();
    let mut i: usize = 0;
    while i < n
        invariant
            i <= n,
            n == items.len(),
            permutes(order@, n as nat),
            out.len() == i,
            forall|w: int| 0 <= w < i ==> out[w] == items[order[w] as int],
        decreases n - i,
    {
        out.push(items[order[i]]);
        i += 1;
    }
    proof {
        assert forall|a: int, b: int| 0 <= a < b < out.len() implies out[a].slot != out[b].slot by {
            let (u, v) = (order[a] as int, order[b] as int);
            assert(order@[a] != order@[b]);
            if u < v {
                assert(items[u].slot != items[v].slot);
            } else {
                assert(items[v].slot != items[u].slot);
            }
        }
        assert forall|x: Item<T>| #[trigger] out@.contains(x) <==> items@.contains(x) by {
            if out@.contains(x) {
                let w = choose|w: int| 0 <= w < out.len() && out[w] == x;
                assert(items[order[w] as int] == x);
            }
            if items@.contains(x) {
                let u = choose|u: int| 0 <= u < items.len() && items[u] == x;
                lemma_permutation_covers(order@, n as nat, u as usize);
                let w = choose|w: int| 0 <= w < order@.len() && order@[w] == u as usize;
                assert(out[w] == x);
            }
        }
    }
    out
}

/// The items ordered by the centre of their boxes along an axis.
pub fn sort_items<T: Scalar>(items: &Vec<Item<T>>, along_x: bool) -> (out: Vec<Item<T>>)
    requires
        distinct_slots(items@),
    ensures
        out.len() == items.len(),
        distinct_slots(out@),
        forall|x: Item<T>| #[trigger] out@.contains(x) <==> items@.contains(x),
{
    let mut boxes: Vec<Aabb2D<T>> = Vec::new();
    let mut i: usize = 0;
    while i < items.len()
        invariant
            i <= items.len(),
            boxes.len() == i,
        decreases items.len() - i,
    {
        boxes.push(items[i].aabb);
        i += 1;
    }
    let order = order_by_centre(&boxes, along_x);
    arrange(items, &order)
}

/// Pack the items from position `from` up to `to` into leaves of at most
/// `cap` items each, in order, and append the leaves to `level`.
pub fn pack_leaves<T: Scalar>(
    items: &Vec<Item<T>>,
    from: usize,
    to: usize,
    cap: usize,
    level: &mut Vec<HNode<T>>,
)
    requires
        ordered::<T>(),
        cap >= 1,
        from <= to <= items.len(),
        distinct_slots(items@),
        forest_ok(old(level)@),
        forall|x: Item<T>| forest_has(old(level)@, x) ==> !items@.subrange(
            from as int,
            to as int,
        ).contains(x) && forall|w: int| from <= w < to ==> (#[trigger] items[w]).slot != x.slot,
    ensures
        forest_ok(final(level)@),
        forall|x: Item<T>|
            #![trigger forest_has(final(level)@, x)]
            forest_has(final(level)@, x) <==> forest_has(old(level)@, x) || items@.subrange(
                from as int,
                to as int,
            ).contains(x),
        forall|max_kids: usize|
            #[trigger] forest_within(old(level)@, cap, max_kids) ==> forest_within(
                final(level)@,
                cap,
                max_kids,
            ),
{
    let ghost level0 = level@;
    let mut a: usize = from;
    while a < to
        invariant
            ordered::<T>(),
            cap >= 1,
            from <= a <= to <= items.len(),
            distinct_slots(items@),
            forest_ok(level@),
            forall|x: Item<T>|
                #![trigger forest_has(level@, x)]
                forest_has(level@, x) <==> forest_has(level0, x) || items@.subrange(
                    from as int,
                    a as int,
                ).contains(x),
            forall|x: Item<T>| forest_has(level0, x) ==> forall|w: int|
                from <= w < to ==> (#[trigger] items[w]).slot != x.slot,
            forall|max_kids: usize|
                #[trigger] forest_within(level0, cap, max_kids) ==> forest_within(
                    level@,
                    cap,
                    max_kids,
                ),
        decreases to - a,
    {
        let b = if to - a > cap {
            a + cap
        } else {
            to
        };
        let mut leaf_items: Vec<Item<T>> = Vec::new();
        let mut w: usize = a;
        while w < b
            invariant
                a <= w <= b <= to <= items.len(),
                leaf_items.len() == w - a,
                forall|k: int| 0 <= k < leaf_items.len() ==> leaf_items[k] == items[a + k],
            decreases b - w,
        {
            leaf_items.push(items[w]);
            w += 1;
        }
        let mut leaf = HNode { bbox: items[a].aabb, items: leaf_items, kids: Vec::new() };
        proof {
            assert(leaf.wf_inner()) by {
                assert forall|p: int, q: int| 0 <= p < q < leaf.items.len() implies leaf.items[p].slot
                    != leaf.items[q].slot by {
                    assert(items[a + p].slot != items[a + q].slot);
                }
            }
        }
        leaf.fit();
        let ghost before = level@;
        let ghost done = items@.subrange(from as int, a as int);
        let ghost next = items@.subrange(from as int, b as int);
        proof {
            assert forall|x: Item<T>| #[trigger] leaf.content().contains(x) <==> exists|k: int|
                a <= k < b && items[k] == x by {
                leaf.lemma_content(x);
                if leaf.items@.contains(x) {
                    let k = choose|k: int| 0 <= k < leaf.items.len() && leaf.items[k] == x;
                    assert(items[a + k] == x);
                }
                if exists|k: int| a <= k < b && items[k] == x {
                    let k = choose|k: int| a <= k < b && items[k] == x;
                    assert(leaf.items[k - a] == x);
                }
            }
            assert forall|s: usize, j: int|
                #![trigger before[j].has_slot(s)]
                0 <= j < before.len() && leaf.has_slot(s) implies !before[j].has_slot(s) by {
                if before[j].has_slot(s) {
                    let x = choose|x: Item<T>| #[trigger] leaf.content().contains(x) && x.slot == s;
                    let y = choose|y: Item<T>| #[trigger] before[j].content().contains(y) && y.slot == s;
                    let k = choose|k: int| a <= k < b && items[k] == x;
                    assert(forest_has(before, y));
                    if forest_has(level0, y) {
                        assert(items[k].slot != y.slot);
                    } else {
                        assert(done.contains(y));
                        let m = choose|m: int| 0 <= m < done.len() && done[m] == y;
                        assert(items[from + m] == y);
                        assert(items[from + m].slot != items[k].slot);
                    }
                }
            }
        }
        level.push(leaf);
        proof {
            let now = level@;
            assert forall|max_kids: usize| #[trigger]
                forest_within(level0, cap, max_kids) implies forest_within(now, cap, max_kids) by {
                assert forall|j: int| 0 <= j < now.len() implies (#[trigger] now[j]).within(
                    cap,
                    max_kids,
                ) by {
                    if j < before.len() {
                        assert(before[j].within(cap, max_kids));
                    }
                }
            }
            assert forall|j: int| 0 <= j < now.len() implies (#[trigger] now[j]).wf() by {
                if j < before.len() {
                    assert(before[j].wf());
                }
            }
            assert forall|i: int, j: int, s: usize|
                #![trigger now[i].has_slot(s), now[j].has_slot(s)]
                0 <= i < j < now.len() implies !(now[i].has_slot(s) && now[j].has_slot(s)) by {
                if j < before.len() {
                    assert(!(before[i].has_slot(s) && before[j].has_slot(s)));
                } else if leaf.has_slot(s) {
                    assert(!before[i].has_slot(s));
                }
            }
            assert forall|x: Item<T>|
                #![trigger forest_has(now, x)]
                forest_has(now, x) <==> forest_has(level0, x) || next.contains(x) by {
                assert(forest_has(before, x) <==> forest_has(level0, x) || done.contains(x));
                if forest_has(now, x) {
                    let j = choose|j: int|
                        0 <= j < now.len() && (#[trigger] now[j]).content().contains(x);
                    if j < before.len() {
                        assert(before[j].content().contains(x));
                        assert(forest_has(before, x));
                        if done.contains(x) {
                            let m = choose|m: int| 0 <= m < done.len() && done[m] == x;
                            assert(next[m] == x);
                        }
                    } else {
                        let k = choose|k: int| a <= k < b && items[k] == x;
                        assert(next[k - from] == x);
                    }
                }
                if forest_has(before, x) {
                    let j = choose|j: int|
                        0 <= j < before.len() && (#[trigger] before[j]).content().contains(x);
                    assert(now[j].content().contains(x));
                }
                if next.contains(x) {
                    let m = choose|m: int| 0 <= m < next.len() && next[m] == x;
                    if from + m < a {
                        assert(done[m] == x);
                        assert(forest_has(before, x));
                    } else {
                        assert(items[from + m] == x);
                        assert(leaf.content().contains(x));
                        assert(now[before.len() as int].content().contains(x));
                    }
                }
            }
        }
        a = b;
    }
}

/// Pack the nodes into parents of at most `cap` children each.
pub fn pack_level<T: Scalar>(nodes: Vec<HNode<T>>, cap: usize) -> (out: Vec<HNode<T>>)
    requires
        ordered::<T>(),
        cap >= 2,
        forest_ok(nodes@),
        nodes.len() >= 1,
    ensures
        forest_ok(out@),
        out.len() >= 1,
        nodes.len() > 1 ==> out.len() < nodes.len(),
        forall|x: Item<T>| #![trigger forest_has(out@, x)] forest_has(out@, x) <==> forest_has(nodes@, x),
        forall|max_items: usize|
            #[trigger] forest_within(nodes@, max_items, cap) ==> forest_within(out@, max_items, cap),
{
    let ghost input = nodes@;
    let n = nodes.len();
    let mut nodes = nodes;
    let mut out: Vec<HNode<T>> = Vec::new();
    while nodes.len() > 0
        invariant
            ordered::<T>(),
            cap >= 2,
            nodes.len() <= n,
            n == input.len(),
            nodes@ == input.take(nodes.len() as int),
            forest_ok(input),
            forest_ok(out@),
            n >= 1,
            nodes.len() < n ==> out.len() >= 1,
            nodes.len() > 0 ==> 2 * out.len() <= n - nodes.len(),
            nodes.len() == 0 ==> 2 * out.len() <= n + 1,
            forall|x: Item<T>|
                #![trigger forest_has(out@, x)]
                forest_has(out@, x) <==> exists|j: int|
                    nodes.len() <= j < n && (#[trigger] input[j]).content().contains(x),
            forall|max_items: usize|
                #[trigger] forest_within(input, max_items, cap) ==> forest_within(
                    out@,
                    max_items,
                    cap,
                ),
        decreases nodes.len(),
    {
        let ghost start = nodes.len();
        let first = nodes.pop().unwrap();
        let mut parent = HNode { bbox: first.bbox, items: Vec::new(), kids: Vec::new() };
        parent.kids.push(first);
        assert(nodes@ =~= input.take(nodes.len() as int));
        let mut c: usize = 1;
        while c < cap && nodes.len() > 0
            invariant
                nodes.len() + c == start,
                start <= n,
                n == input.len(),
                1 <= c <= cap,
                nodes@ == input.take(nodes.len() as int),
                parent.items.len() == 0,
                parent.kids.len() == c,
                forall|k: int| 0 <= k < c ==> #[trigger] parent.kids[k] == input[start - 1 - k],
            decreases nodes.len(),
        {
            let node = nodes.pop().unwrap();
            parent.kids.push(node);
            assert(nodes@ =~= input.take(nodes.len() as int));
            c += 1;
        }
        proof {
            assert(parent.wf_inner()) by {
                assert forall|k: int| 0 <= k < parent.kids.len() implies (#[trigger] parent.kids[k]).wf() by {
                    assert(input[start - 1 - k].wf());
                }
                assert forall|i: int, j: int, s: usize|
                    #![trigger parent.kids[i].has_slot(s), parent.kids[j].has_slot(s)]
                    0 <= i < j < parent.kids.len() implies !(parent.kids[i].has_slot(s)
                    && parent.kids[j].has_slot(s)) by {
                    assert(!(input[start - 1 - j].has_slot(s) && input[start - 1 - i].has_slot(s)));
                }
            }
        }
        let ghost unfitted = parent;
        parent.fit();
        let ghost before = out@;
        let ghost low = nodes.len() as int;
        proof {
            assert forall|x: Item<T>| #[trigger] parent.content().contains(x) <==> exists|j: int|
                low <= j < start && (#[trigger] input[j]).content().contains(x) by {
                parent.lemma_content(x);
                unfitted.lemma_content(x);
                if exists|k: int|
                    0 <= k < unfitted.kids.len() && (#[trigger] unfitted.kids[k]).content().contains(
                        x,
                    ) {
                    let k = choose|k: int|
                        0 <= k < unfitted.kids.len() && (#[trigger] unfitted.kids[k]).content().contains(
                            x,
                        );
                    assert(input[start - 1 - k].content().contains(x));
                }
                if exists|j: int| low <= j < start && (#[trigger] input[j]).content().contains(x) {
                    let j = choose|j: int|
                        low <= j < start && (#[trigger] input[j]).content().contains(x);
                    assert(unfitted.kids[start - 1 - j].content().contains(x));
                }
            }
            assert forall|s: usize, i: int|
                #![trigger before[i].has_slot(s)]
                0 <= i < before.len() && parent.has_slot(s) implies !before[i].has_slot(s) by {
                if before[i].has_slot(s) {
                    let x = choose|x: Item<T>| #[trigger] parent.content().contains(x) && x.slot == s;
                    let y = choose|y: Item<T>| #[trigger] before[i].content().contains(y) && y.slot == s;
                    let j = choose|j: int|
                        low <= j < start && (#[trigger] input[j]).content().contains(x);
                    assert(forest_has(before, y));
                    let m = choose|m: int|
                        start <= m < n && (#[trigger] input[m]).content().contains(y);
                    assert(input[j].has_slot(s) && input[m].has_slot(s));
                }
            }
        }
        out.push(parent);
        proof {
            let now = out@;
            assert forall|max_items: usize| #[trigger]
                forest_within(input, max_items, cap) implies forest_within(now, max_items, cap) by {
                assert forall|j: int| 0 <= j < now.len() implies (#[trigger] now[j]).within(
                    max_items,
                    cap,
                ) by {
                    if j < before.len() {
                        assert(before[j].within(max_items, cap));
                    } else {
                        assert forall|k: int| 0 <= k < parent.kids.len() implies (
                        #[trigger] parent.kids[k]).within(max_items, cap) by {
                            assert(unfitted.kids[k] == input[start - 1 - k]);
                        }
                    }
                }
            }
            assert forall|j: int| 0 <= j < now.len() implies (#[trigger] now[j]).wf() by {
                if j < before.len() {
                    assert(before[j].wf());
                }
            }
            assert forall|i: int, j: int, s: usize|
                #![trigger now[i].has_slot(s), now[j].has_slot(s)]
                0 <= i < j < now.len() implies !(now[i].has_slot(s) && now[j].has_slot(s)) by {
                if j < before.len() {
                    assert(!(before[i].has_slot(s) && before[j].has_slot(s)));
                } else if parent.has_slot(s) {
                    assert(!before[i].has_slot(s));
                }
            }
            assert forall|x: Item<T>|
                #![trigger forest_has(now, x)]
                forest_has(now, x) <==> exists|j: int|
                    low <= j < n && (#[trigger] input[j]).content().contains(x) by {
                assert(forest_has(before, x) <==> exists|j: int|
                    start <= j < n && (#[trigger] input[j]).content().contains(x));
                if forest_has(now, x) {
                    let i = choose|i: int|
                        0 <= i < now.len() && (#[trigger] now[i]).content().contains(x);
                    if i < before.len() {
                        assert(before[i].content().contains(x));
                        assert(forest_has(before, x));
                        let j = choose|j: int|
                            start <= j < n && (#[trigger] input[j]).content().contains(x);
                        assert(low <= j < n && input[j].content().contains(x));
                    } else {
                        let j = choose|j: int|
                            low <= j < start && (#[trigger] input[j]).content().contains(x);
                        assert(low <= j < n && input[j].content().contains(x));
                    }
                }
                if exists|j: int| low <= j < n && (#[trigger] input[j]).content().contains(x) {
                    let j = choose|j: int|
                        low <= j < n && (#[trigger] input[j]).content().contains(x);
                    if j < start {
                        assert(parent.content().contains(x));
                        assert(now[before.len() as int].content().contains(x));
                    } else {
                        assert(forest_has(before, x));
                        let i = choose|i: int|
                            0 <= i < before.len() && (#[trigger] before[i]).content().contains(x);
                        assert(now[i].content().contains(x));
                    }
                }
            }
        }
    }
    proof {
        assert forall|x: Item<T>|
            #![trigger forest_has(out@, x)]
            forest_has(out@, x) <==> forest_has(input, x) by {
            assert(forest_has(out@, x) <==> exists|j: int|
                0 <= j < n && (#[trigger] input[j]).content().contains(x));
        }
    }
    out
}

/// Build a hierarchy over `items`.
///
/// The items are sorted by centre along x and cut into vertical slices,
/// as many as the square root of the number of leaves, rounded up. Each
/// slice is sorted by centre along y and packed into leaves of at most
/// `max_items` items. The leaves are packed into parents of at most
/// `max_kids` children, and those likewise, until one node is left.
pub fn build<T: Scalar>(items: &Vec<Item<T>>, max_items: usize, max_kids: usize) -> (root: HNode<T>)
    requires
        ordered::<T>(),
        max_items >= 1,
        max_kids >= 2,
        distinct_slots(items@),
    ensures
        root.wf(),
        root.within(max_items, max_kids),
        forall|x: Item<T>| #[trigger] root.content().contains(x) <==> items@.contains(x),
{
    let n = items.len();
    if n == 0 {
        let zero = T::zero();
        let root = HNode::vacant(Aabb2D { min_x: zero, min_y: zero, max_x: zero, max_y: zero });
        assert forall|x: Item<T>| #[trigger] root.content().contains(x) <==> items@.contains(x) by {}
        return root;
    }
    let by_x = sort_items(items, true);
    let leaves = (n - 1) / max_items + 1;
    let slices = isqrt_ceil(leaves);
    let slice_len = match slices.checked_mul(max_items) {
        Some(len) => if len == 0 {
            n
        } else {
            len
        },
        None => n,
    };
    let mut level: Vec<HNode<T>> = Vec::new();
    let mut a: usize = 0;
    while a < n
        invariant
            ordered::<T>(),
            max_items >= 1,
            slice_len >= 1,
            a <= n,
            n == by_x.len(),
            distinct_slots(by_x@),
            forest_ok(level@),
            forest_within(level@, max_items, max_kids),
            a > 0 ==> level.len() >= 1,
            forall|x: Item<T>|
                #![trigger forest_has(level@, x)]
                forest_has(level@, x) <==> by_x@.subrange(0, a as int).contains(x),
        decreases n - a,
    {
        let b = if n - a > slice_len {
            a + slice_len
        } else {
            n
        };
        let mut slice: Vec<Item<T>> = Vec::new();
        let mut w: usize = a;
        while w < b
            invariant
                a <= w <= b <= n,
                n == by_x.len(),
                slice.len() == w - a,
                forall|k: int| 0 <= k < slice.len() ==> slice[k] == by_x[a + k],
            decreases b - w,
        {
            slice.push(by_x[w]);
            w += 1;
        }
        proof {
            assert forall|p: int, q: int| 0 <= p < q < slice.len() implies slice[p].slot
                != slice[q].slot by {
                assert(by_x[a + p].slot != by_x[a + q].slot);
            }
        }
        let by_y = sort_items(&slice, false);
        let ghost before = level@;
        let ghost done = by_x@.subrange(0, a as int);
        proof {
            assert(by_y@.subrange(0, by_y.len() as int) =~= by_y@);
            assert forall|x: Item<T>| forest_has(before, x) implies !by_y@.subrange(
                0,
                by_y.len() as int,
            ).contains(x) && forall|w: int|
                0 <= w < by_y.len() ==> (#[trigger] by_y[w]).slot != x.slot by {
                assert(done.contains(x));
                let m = choose|m: int| 0 <= m < done.len() && done[m] == x;
                assert(by_x[m] == x);
                assert forall|w: int| 0 <= w < by_y.len() implies (#[trigger] by_y[w]).slot
                    != x.slot by {
                    assert(by_y@.contains(by_y[w]));
                    assert(slice@.contains(by_y[w]));
                    let k = choose|k: int| 0 <= k < slice.len() && slice[k] == by_y[w];
                    assert(by_x[m].slot != by_x[a + k].slot);
                }
                if by_y@.contains(x) {
                    let w = choose|w: int| 0 <= w < by_y.len() && by_y[w] == x;
                    assert(by_y[w].slot != x.slot);
                }
            }
        }
        pack_leaves(&by_y, 0, by_y.len(), max_items, &mut level);
        proof {
            let next = by_x@.subrange(0, b as int);
            assert(level.len() >= 1) by {
                assert(by_y@.contains(by_y[0]));
                assert(forest_has(level@, by_y[0]));
            }
            assert forall|x: Item<T>|
                #![trigger forest_has(level@, x)]
                forest_has(level@, x) <==> next.contains(x) by {
                assert(forest_has(level@, x) <==> forest_has(before, x) || by_y@.subrange(
                    0,
                    by_y.len() as int,
                ).contains(x));
                assert(forest_has(before, x) <==> done.contains(x));
                assert(by_y@.contains(x) <==> slice@.contains(x));
                if done.contains(x) {
                    let m = choose|m: int| 0 <= m < done.len() && done[m] == x;
                    assert(next[m] == x);
                }
                if slice@.contains(x) {
                    let k = choose|k: int| 0 <= k < slice.len() && slice[k] == x;
                    assert(next[a + k] == x);
                }
                if next.contains(x) {
                    let m = choose|m: int| 0 <= m < next.len() && next[m] == x;
                    if m < a {
                        assert(done[m] == x);
                    } else {
                        assert(slice[m - a] == x);
                    }
                }
            }
        }
        a = b;
    }
    proof {
        assert(by_x@.subrange(0, n as int) =~= by_x@);
    }
    while level.len() > 1
        invariant
            ordered::<T>(),
            max_kids >= 2,
            level.len() >= 1,
            forest_ok(level@),
            forest_within(level@, max_items, max_kids),
            forall|x: Item<T>| #![trigger forest_has(level@, x)] forest_has(level@, x) <==> by_x@.contains(x),
        decreases level.len(),
    {
        level = pack_level(level, max_kids);
    }
    let ghost last = level@;
    let root = level.pop().unwrap();
    proof {
        assert(last[0] == root);
        assert forall|x: Item<T>| #[trigger] root.content().contains(x) <==> items@.contains(x) by {
            assert(forest_has(last, x) <==> by_x@.contains(x));
            assert(by_x@.contains(x) <==> items@.contains(x));
            if root.content().contains(x) {
                assert(last[0].content().contains(x));
            }
            if forest_has(last, x) {
                let j = choose|j: int| 0 <= j < last.len() && (#[trigger] last[j]).content().contains(x);
                assert(j == 0);
            }
        }
    }
    root
}

} // verus!
