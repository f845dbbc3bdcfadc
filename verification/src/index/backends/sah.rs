//! The split heuristic of the hierarchy: where to cut an overfull node.

use crate::index::types::{ordered, Aabb2D, Scalar};
use vstd::std_specs::cmp::PartialOrdIs;
use vstd::prelude::*;

verus! {

/// Whether `order` lists each of the positions `0..n` once.
pub open spec fn permutes(order: Seq<usize>, n: nat) -> bool {
    &&& order.len() == n
    &&& order.no_duplicates()
    &&& forall|i: int| 0 <= i < order.len() ==> (#[trigger] order[i]) < n
}

/// In a permutation of `0..n` every position occurs.
pub proof fn lemma_permutation_covers(order: Seq<usize>, n: nat, p: usize)
    requires
        permutes(order, n),
        p < n,
    ensures
        order.contains(p),
{
    if !order.contains(p) {
        // All of `order` lies in `0..n` without `p`: too many distinct values.
        let shifted = Seq::new(n, |i: int| if order[i] > p { (order[i] - 1) as usize } else { order[i] });
        assert forall|a: int, b: int| 0 <= a < n && 0 <= b < n && a != b implies shifted[a]
            != shifted[b] by {
            assert(order[a] != order[b]);
            assert(order.contains(order[a]));
            assert(order.contains(order[b]));
        }
        assert forall|i: int| 0 <= i < shifted.len() implies shifted[i] < n - 1 by {
            assert(order.contains(order[i]));
        }
        crate::box_tree::walk::lemma_bounded_distinct(shifted, (n - 1) as nat);
    }
}

/// The centre of a box along an axis: the midpoint of its minimum and
/// maximum, along x where `along_x`, along y otherwise.
pub open spec fn centre_of<T: Scalar>(aabb: Aabb2D<T>, along_x: bool) -> T {
    if along_x {
        T::mid_spec(aabb.min_x, aabb.max_x)
    } else {
        T::mid_spec(aabb.min_y, aabb.max_y)
    }
}

/// Compute [`centre_of`].
pub fn centre<T: Scalar>(aabb: &Aabb2D<T>, along_x: bool) -> (c: T)
    ensures
        c == centre_of(*aabb, along_x),
{
    if along_x {
        T::mid(aabb.min_x, aabb.max_x)
    } else {
        T::mid(aabb.min_y, aabb.max_y)
    }
}

/// Whether `order` lists positions of `boxes` by ascending centre along an
/// axis, positions with the same centre in ascending order.
pub open spec fn sorted_along<T: Scalar>(
    boxes: Seq<Aabb2D<T>>,
    order: Seq<usize>,
    along_x: bool,
) -> bool {
    forall|a: int, b: int|
        #![trigger order[a], order[b]]
        0 <= a < b < order.len() ==> {
            let ca = centre_of(boxes[order[a] as int], along_x);
            let cb = centre_of(boxes[order[b] as int], along_x);
            &&& ca.is_le(&cb)
            &&& cb.is_le(&ca) ==> order[a] < order[b]
        }
}

/// The positions of `boxes` by ascending centre along an axis; boxes with
/// the same centre keep their order.
pub fn order_by_centre<T: Scalar>(boxes: &Vec<Aabb2D<T>>, along_x: bool) -> (order: Vec<usize>)
    ensures
        permutes(order@, boxes.len() as nat),
        ordered::<T>() ==> sorted_along(boxes@, order@, along_x),
{
    let n = boxes.len();
    let mut order: Vec<usize> = Vec::new();
    let mut i: usize = 0;
    while i < n
        invariant
            i <= n,
            n == boxes.len(),
            order.len() == i,
            order@.no_duplicates(),
            forall|k: int| 0 <= k < order.len() ==> (#[trigger] order[k]) < i,
            ordered::<T>() ==> sorted_along(boxes@, order@, along_x),
        decreases n - i,
    {
        let c = centre(&boxes[i], along_x);
        let mut pos: usize = order.len();
        while pos > 0 && c < centre(&boxes[order[pos - 1]], along_x)
            invariant
                pos <= order.len(),
                i < n,
                n == boxes.len(),
                c == centre_of(boxes[i as int], along_x),
                forall|k: int| 0 <= k < order.len() ==> (#[trigger] order[k]) < i,
                ordered::<T>() ==> forall|q: int|
                    pos <= q < order.len() ==> c.is_lt(
                        &centre_of(boxes[(#[trigger] order[q]) as int], along_x),
                    ),
            decreases pos,
        {
            pos -= 1;
        }
        let ghost prev = order@;
        order.insert(pos, i);
        proof {
            let now = order@;
            assert forall|k: int| 0 <= k < now.len() implies now[k] == if k < pos {
                prev[k]
            } else if k == pos {
                i
            } else {
                prev[k - 1]
            } by {}
            assert forall|a: int, b: int| 0 <= a < now.len() && 0 <= b < now.len() && a != b implies now[a]
                != now[b] by {
                let pa = if a < pos { a } else { a - 1 };
                let pb = if b < pos { b } else { b - 1 };
                if a != pos && b != pos {
                    assert(prev[pa] != prev[pb]);
                } else if a == pos {
                    assert(prev[pb] < i);
                } else {
                    assert(prev[pa] < i);
                }
            }
            assert forall|k: int| 0 <= k < now.len() implies (#[trigger] now[k]) < i + 1 by {
                if k != pos {
                    let pk = if k < pos { k } else { k - 1 };
                    assert(prev[pk] < i);
                }
            }
            if ordered::<T>() {
                assert forall|a: int, b: int|
                    #![trigger now[a], now[b]]
                    0 <= a < b < now.len() implies {
                    let ca = centre_of(boxes[now[a] as int], along_x);
                    let cb = centre_of(boxes[now[b] as int], along_x);
                    &&& ca.is_le(&cb)
                    &&& cb.is_le(&ca) ==> now[a] < now[b]
                } by {
                    let ca = centre_of(boxes[now[a] as int], along_x);
                    let cb = centre_of(boxes[now[b] as int], along_x);
                    T::lemma_order(ca, cb, c);
                    T::lemma_order(c, cb, ca);
                    if a != pos && b != pos {
                        let pa = if a < pos { a } else { a - 1 };
                        let pb = if b < pos { b } else { b - 1 };
                        assert(prev[pa] == now[a] && prev[pb] == now[b]);
                    } else if a == pos {
                        // Everything after the place of insertion is greater.
                        assert(prev[b - 1] == now[b]);
                    } else {
                        // Everything before it is at most the one just before it.
                        if pos > 0 {
                            let last = centre_of(boxes[prev[pos - 1] as int], along_x);
                            T::lemma_order(ca, last, c);
                            T::lemma_order(c, last, last);
                            assert(prev[a] == now[a]);
                            if a < pos - 1 {
                                assert(prev[a] == prev[a] && prev[pos - 1] == prev[pos - 1]);
                            }
                        }
                    }
                }
            }
        }
        i += 1;
    }
    order
}

/// The join of the boxes at the first `k` positions of `order`, folded
/// from the first.
pub open spec fn prefix_box<T: Scalar>(boxes: Seq<Aabb2D<T>>, order: Seq<usize>, k: int) -> Aabb2D<T>
    decreases k,
{
    if k <= 1 {
        boxes[order[0] as int]
    } else {
        prefix_box(boxes, order, k - 1).join(boxes[order[k - 1] as int])
    }
}

/// The join of the boxes at the positions of `order` from `k` on, folded
/// from the last.
pub open spec fn suffix_box<T: Scalar>(boxes: Seq<Aabb2D<T>>, order: Seq<usize>, k: int) -> Aabb2D<T>
    decreases order.len() - k,
{
    if k >= order.len() - 1 {
        boxes[order[order.len() - 1] as int]
    } else {
        suffix_box(boxes, order, k + 1).join(boxes[order[k] as int])
    }
}

/// The cost of cutting `order` after its first `k` positions: the area of
/// the box of each side, weighted by the number of boxes on that side, in
/// the accumulator type.
pub open spec fn cut_cost<T: Scalar>(boxes: Seq<Aabb2D<T>>, order: Seq<usize>, k: int) -> T::Acc {
    T::acc_add_spec(
        T::acc_mul_spec(prefix_box(boxes, order, k).area_spec(), T::acc_from_usize_spec(k as usize)),
        T::acc_mul_spec(
            suffix_box(boxes, order, k).area_spec(),
            T::acc_from_usize_spec((order.len() - k) as usize),
        ),
    )
}

/// Whether the cut after `k` is the cheapest cut of `order`, the first of
/// several: no cut costs less, and every cut before it costs more.
pub open spec fn best_cut<T: Scalar>(boxes: Seq<Aabb2D<T>>, order: Seq<usize>, k: int) -> bool {
    &&& 1 <= k < order.len()
    &&& forall|j: int|
        1 <= j < order.len() ==> !T::acc_lt_spec(
            #[trigger] cut_cost(boxes, order, j),
            cut_cost(boxes, order, k),
        )
    &&& forall|j: int|
        1 <= j < k ==> T::acc_lt_spec(cut_cost(boxes, order, k), #[trigger] cut_cost(boxes, order, j))
}

/// The cheapest cut of `order` and its cost, the first of several: every
/// cut is costed in one pass over running prefix boxes, after one pass that
/// lays out the suffix boxes.
pub fn cheapest_cut<T: Scalar>(boxes: &Vec<Aabb2D<T>>, order: &Vec<usize>) -> (r: (usize, T::Acc))
    requires
        boxes.len() >= 2,
        permutes(order@, boxes.len() as nat),
        ordered::<T>(),
    ensures
        best_cut(boxes@, order@, r.0 as int),
        r.1 == cut_cost(boxes@, order@, r.0 as int),
{
    let n = order.len();
    // suffix[n - 1 - k] is the box of the positions from k on.
    let mut suffix: Vec<Aabb2D<T>> = Vec::new();
    suffix.push(boxes[order[n - 1]]);
    let mut k: usize = n - 1;
    while k > 0
        invariant
            k <= n - 1,
            n == order.len(),
            n >= 2,
            permutes(order@, boxes.len() as nat),
            ordered::<T>(),
            suffix.len() == n - k,
            forall|p: int|
                0 <= p < suffix.len() ==> #[trigger] suffix[p] == suffix_box(
                    boxes@,
                    order@,
                    n - 1 - p,
                ),
        decreases k,
    {
        k -= 1;
        let grown = suffix[n - 2 - k].union(boxes[order[k]]);
        suffix.push(grown);
    }
    proof {
        T::lemma_acc_order(
            cut_cost(boxes@, order@, 1),
            cut_cost(boxes@, order@, 1),
            cut_cost(boxes@, order@, 1),
        );
        assert(suffix[n - 2] == suffix_box(boxes@, order@, 1));
    }
    let mut prefix = boxes[order[0]];
    let mut best: usize = 1;
    let mut best_cost = T::acc_add(
        T::acc_mul(prefix.area(), T::acc_from_usize(1)),
        T::acc_mul(suffix[n - 2].area(), T::acc_from_usize(n - 1)),
    );
    let mut j: usize = 2;
    while j < n
        invariant
            2 <= j <= n,
            n == order.len(),
            permutes(order@, boxes.len() as nat),
            ordered::<T>(),
            suffix.len() == n,
            forall|p: int|
                0 <= p < suffix.len() ==> #[trigger] suffix[p] == suffix_box(
                    boxes@,
                    order@,
                    n - 1 - p,
                ),
            prefix == prefix_box(boxes@, order@, j - 1),
            1 <= best < j,
            best_cost == cut_cost(boxes@, order@, best as int),
            forall|q: int|
                1 <= q < j ==> !T::acc_lt_spec(#[trigger] cut_cost(boxes@, order@, q), best_cost),
            forall|q: int|
                1 <= q < best ==> T::acc_lt_spec(best_cost, #[trigger] cut_cost(boxes@, order@, q)),
        decreases n - j,
    {
        prefix = prefix.union(boxes[order[j - 1]]);
        let cost = T::acc_add(
            T::acc_mul(prefix.area(), T::acc_from_usize(j)),
            T::acc_mul(suffix[n - 1 - j].area(), T::acc_from_usize(n - j)),
        );
        assert(suffix[n - 1 - j] == suffix_box(boxes@, order@, j as int));
        assert(cost == cut_cost(boxes@, order@, j as int));
        if T::acc_lt(cost, best_cost) {
            proof {
                assert forall|q: int| 1 <= q < j + 1 implies !T::acc_lt_spec(
                    #[trigger] cut_cost(boxes@, order@, q),
                    cost,
                ) by {
                    T::lemma_acc_order(cut_cost(boxes@, order@, q), cost, best_cost);
                    T::lemma_acc_order(cost, cost, cost);
                }
                assert forall|q: int| 1 <= q < j implies T::acc_lt_spec(
                    cost,
                    #[trigger] cut_cost(boxes@, order@, q),
                ) by {
                    T::lemma_acc_order(cost, cut_cost(boxes@, order@, q), best_cost);
                }
            }
            best = j;
            best_cost = cost;
        } else {
            proof {
                assert forall|q: int| 1 <= q < j + 1 implies !T::acc_lt_spec(
                    #[trigger] cut_cost(boxes@, order@, q),
                    best_cost,
                ) by {}
            }
        }
        j += 1;
    }
    (best, best_cost)
}

/// Whether `order` and `k` are the order and the best cut of `boxes`
/// along one axis.
pub open spec fn axis_cut<T: Scalar>(
    boxes: Seq<Aabb2D<T>>,
    order: Seq<usize>,
    k: int,
    along_x: bool,
) -> bool {
    &&& permutes(order, boxes.len())
    &&& sorted_along(boxes, order, along_x)
    &&& best_cut(boxes, order, k)
}

/// What [`choose_split`] returns for the boxes it is given: of the best
/// cut along x and the best cut along y the cheaper, with its order, and
/// that along x where they cost the same.
#[verifier::opaque]
pub open spec fn is_split<T: Scalar>(boxes: Seq<Aabb2D<T>>, order: Seq<usize>, k: int) -> bool {
    exists|by_x: Seq<usize>, kx: int, by_y: Seq<usize>, ky: int|
        {
            &&& #[trigger] axis_cut(boxes, by_x, kx, true)
            &&& #[trigger] axis_cut(boxes, by_y, ky, false)
            &&& if T::acc_lt_spec(cut_cost(boxes, by_y, ky), cut_cost(boxes, by_x, kx)) {
                order == by_y && k == ky
            } else {
                order == by_x && k == kx
            }
        }
}

/// Choose where to split `boxes`: an order of their positions and a cut
/// `k`, so that the first `k` positions of the order go to one side and the
/// rest to the other. Both sides get at least one box.
///
/// The boxes are ordered by centre along x and along y. For each order
/// every cut is costed, and the cheapest cut of the two orders is taken,
/// that along x where they cost the same.
pub fn choose_split<T: Scalar>(boxes: &Vec<Aabb2D<T>>) -> (r: (Vec<usize>, usize))
    requires
        boxes.len() >= 2,
        ordered::<T>(),
    ensures
        permutes(r.0@, boxes.len() as nat),
        1 <= r.1 < boxes.len(),
        is_split(boxes@, r.0@, r.1 as int),
{
    let by_x = order_by_centre(boxes, true);
    let by_y = order_by_centre(boxes, false);
    let (kx, cost_x) = cheapest_cut(boxes, &by_x);
    let (ky, cost_y) = cheapest_cut(boxes, &by_y);
    proof {
        reveal(is_split);
        assert(axis_cut(boxes@, by_x@, kx as int, true));
        assert(axis_cut(boxes@, by_y@, ky as int, false));
    }
    if T::acc_lt(cost_y, cost_x) {
        (by_y, ky)
    } else {
        (by_x, kx)
    }
}

} // verus!
