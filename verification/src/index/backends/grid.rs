//! Uniform grid backend for 2D AABBs.
//!
//! This backend buckets AABBs into fixed-size grid cells and answers
//! queries by touching only the cells overlapping the query primitive. It
//! is intended for workloads with moderately uniform spatial density,
//! dynamic updates, and query rectangles that are small compared to the
//! full world extent.

use crate::index::backend::{slots_containing, slots_touching, Backend};
use crate::index::backends::cells::{
    cell_list_cells, cell_list_from, cell_list_to_vec, CellList, cell_map_cells, cell_map_clear, cell_map_get, cell_map_new, cell_map_push, cell_map_remove,
    cell_map_swap_remove, seen_insert, seen_items, seen_new, slots_in, swap_removed, CellKey,
    CellMap,
};
use crate::index::backends::flatvec::lemma_push_contains;
use crate::index::scalar_i64::lemma_floor_monotonic;
use crate::index::types::{ordered, Aabb2D, Scalar};
use vstd::prelude::*;
use vstd::std_specs::cmp::PartialOrdIs;

verus! {

/// Scalar types supported by the grid backend.
///
/// This is kept separate from [`Scalar`] so that the grid implementation
/// can use type-specific logic (e.g., Euclidean division for integers).
pub trait GridScalar: Scalar {
    /// Whether `cell_size` can be the cell size of a grid: it is strictly
    /// positive.
    spec fn usable(cell_size: Self) -> bool;

    /// Result of [`GridScalar::cell_coord`].
    spec fn cell_of(value: Self, origin: Self, cell_size: Self) -> i32;

    /// Map a scalar coordinate to a grid coordinate along one axis: the
    /// number of whole cells from `origin` to `value`, rounded toward
    /// negative infinity and saturated to the range of `i32`.
    fn cell_coord(value: Self, origin: Self, cell_size: Self) -> (r: i32)
        requires
            Self::usable(cell_size),
        ensures
            r == Self::cell_of(value, origin, cell_size),
    ;

    /// The mapping is monotonic in `value`: where `a <= b` or `b >= a`
    /// holds, the cell of `a` is not after the cell of `b`.
    proof fn lemma_cell_of_monotonic(a: Self, b: Self, origin: Self, cell_size: Self)
        requires
            Self::usable(cell_size),
            ordered::<Self>(),
            a.is_le(&b) || b.is_ge(&a),
        ensures
            Self::cell_of(a, origin, cell_size) <= Self::cell_of(b, origin, cell_size),
    ;
}

/// `v` clamped into the range of `i32`.
pub open spec fn clamp_i32(v: int) -> i32 {
    if v > i32::MAX {
        i32::MAX
    } else if v < i32::MIN {
        i32::MIN
    } else {
        v as i32
    }
}

impl GridScalar for i64 {
    open spec fn usable(cell_size: Self) -> bool {
        cell_size > 0
    }

    /// The floor of `(value - origin) / cell_size`, saturated.
    open spec fn cell_of(value: Self, origin: Self, cell_size: Self) -> i32 {
        clamp_i32((value - origin) / (cell_size as int))
    }

    fn cell_coord(value: Self, origin: Self, cell_size: Self) -> (r: i32) {
        let rel: i128 = value as i128 - origin as i128;
        let size: i128 = cell_size as i128;
        // Euclidean division rounds toward negative infinity for a positive
        // divisor, which matches floor for all integer values.
        let coord: i128 = if rel >= 0 {
            rel / size
        } else {
            let up = (-rel + size - 1) / size;
            proof {
                crate::virtual_list::scalar::lemma_floor_of_negative(rel as int, size as int);
            }
            -up
        };
        // Saturate values out of `i32` range.
        if coord >= i32::MAX as i128 {
            i32::MAX
        } else if coord <= i32::MIN as i128 {
            i32::MIN
        } else {
            coord as i32
        }
    }

    proof fn lemma_cell_of_monotonic(a: Self, b: Self, origin: Self, cell_size: Self) {
        lemma_floor_monotonic(a - origin, b - origin, cell_size as int);
    }
}

/// One occupied slot of the grid: its box and the cells that hold it.
#[derive(Debug)]
pub struct SlotEntry<T> {
    /// The box of the slot.
    pub aabb: Aabb2D<T>,
    /// Cells currently containing this AABB.
    pub cells: CellList,
}

/// Uniform grid backend with fixed cell size.
pub struct Grid<T: GridScalar> {
    cell_size: T,
    origin_x: T,
    origin_y: T,
    cells: CellMap,
    slots: Vec<Option<SlotEntry<T>>>,
}

/// The cells from `lo` to `hi`, both included, of a pair in either order.
pub open spec fn ordered_pair(c0: i32, c1: i32) -> (i32, i32) {
    if c0 <= c1 {
        (c0, c1)
    } else {
        (c1, c0)
    }
}

/// The range of cells along one axis that the interval from `min` to
/// `max` covers.
pub open spec fn cells_along<T: GridScalar>(min: T, max: T, origin: T, cell_size: T) -> (i32, i32) {
    ordered_pair(T::cell_of(min, origin, cell_size), T::cell_of(max, origin, cell_size))
}

/// Whether `cell` lies in the ranges `xs` and `ys`.
pub open spec fn in_ranges(xs: (i32, i32), ys: (i32, i32), cell: CellKey) -> bool {
    xs.0 <= cell.0 <= xs.1 && ys.0 <= cell.1 <= ys.1
}

impl<T: GridScalar> Grid<T> {
    /// Whether the grid covers `aabb` by `cell`.
    pub closed spec fn covers(&self, aabb: Aabb2D<T>, cell: CellKey) -> bool {
        in_ranges(
            cells_along(aabb.min_x, aabb.max_x, self.origin_x, self.cell_size),
            cells_along(aabb.min_y, aabb.max_y, self.origin_y, self.cell_size),
            cell,
        )
    }

    /// The boxes held, by slot.
    pub closed spec fn held(&self) -> Map<usize, Aabb2D<T>> {
        Map::new(
            |s: usize| s < self.slots.len() && self.slots[s as int] is Some,
            |s: usize| self.slots[s as int]->0.aabb,
        )
    }

    /// Whether `cell` lists `slot`.
    pub closed spec fn lists(&self, cell: CellKey, slot: usize) -> bool {
        slots_in(cell_map_cells(self.cells), cell).contains(slot)
    }

    /// The part of the invariant that concerns the slots: each records the
    /// cells that cover its box, each once.
    pub closed spec fn slots_ok(&self) -> bool {
        forall|s: int|
            0 <= s < self.slots.len() ==> (#[trigger] self.slots[s] matches Some(e)
                ==> cell_list_cells(e.cells).no_duplicates() && forall|c: CellKey|
                cell_list_cells(e.cells).contains(c) <==> self.covers(e.aabb, c))
    }

    /// The part of the invariant that concerns the cells: every cell with
    /// an entry has slots, each once.
    pub closed spec fn cells_ok(&self) -> bool {
        forall|c: CellKey|
            #![trigger cell_map_cells(self.cells)[c]]
            cell_map_cells(self.cells).dom().contains(c) ==> cell_map_cells(self.cells)[c].len()
                > 0 && cell_map_cells(self.cells)[c].no_duplicates()
    }

    /// The invariant of the grid: the cell size is usable, and a cell lists
    /// a slot exactly where the slot is held and the cell covers its box.
    pub closed spec fn grid_ok(&self) -> bool {
        &&& T::usable(self.cell_size)
        &&& self.slots_ok()
        &&& self.cells_ok()
        &&& forall|c: CellKey, s: usize|
            #![trigger self.lists(c, s)]
            self.lists(c, s) <==> self.held().dom().contains(s) && self.covers(self.held()[s], c)
    }

    /// Create a new grid backend with the given cell size and origin at
    /// zero.
    pub fn new(cell_size: T) -> (r: Self)
        requires
            T::usable(cell_size),
        ensures
            r.grid_ok(),
            r.held() == Map::<usize, Aabb2D<T>>::empty(),
    {
        Self::with_origin(cell_size, T::zero(), T::zero())
    }

    /// Create a new grid backend with the given cell size and origin.
    pub fn with_origin(cell_size: T, origin_x: T, origin_y: T) -> (r: Self)
        requires
            T::usable(cell_size),
        ensures
            r.grid_ok(),
            r.held() == Map::<usize, Aabb2D<T>>::empty(),
    {
        let r = Grid { cell_size, origin_x, origin_y, cells: cell_map_new(), slots: Vec::new() };
        assert(r.held() =~= Map::<usize, Aabb2D<T>>::empty());
        r
    }

    /// Grow the slot vector with vacant slots until `slot` is in range.
    fn ensure_slot(&mut self, slot: usize)
        requires
            slot < usize::MAX,
        ensures
            final(self).slots.len() > slot,
            final(self).slots.len() >= old(self).slots.len(),
            final(self).cell_size == old(self).cell_size,
            final(self).origin_x == old(self).origin_x,
            final(self).origin_y == old(self).origin_y,
            final(self).cells == old(self).cells,
            forall|i: int|
                0 <= i < old(self).slots.len() ==> final(self).slots[i] == old(self).slots[i],
            forall|i: int|
                old(self).slots.len() <= i < final(self).slots.len() ==> final(self).slots[i]
                    is None,
    {
        while self.slots.len() <= slot
            invariant
                self.slots.len() >= old(self).slots.len(),
                self.cell_size == old(self).cell_size,
                self.origin_x == old(self).origin_x,
                self.origin_y == old(self).origin_y,
                self.cells == old(self).cells,
                forall|i: int|
                    0 <= i < old(self).slots.len() ==> self.slots[i] == old(self).slots[i],
                forall|i: int| old(self).slots.len() <= i < self.slots.len() ==> self.slots[i] is None,
            decreases slot + 1 - self.slots.len(),
        {
            self.slots.push(None);
        }
    }

    /// The range of cells along one axis that an interval covers.
    fn cell_range(&self, min: T, max: T, origin: T) -> (r: (i32, i32))
        requires
            T::usable(self.cell_size),
        ensures
            r == cells_along(min, max, origin, self.cell_size),
    {
        let c0 = T::cell_coord(min, origin, self.cell_size);
        let c1 = T::cell_coord(max, origin, self.cell_size);
        if c0 <= c1 {
            (c0, c1)
        } else {
            (c1, c0)
        }
    }
}

/// Whether `cell` lies in one of the rows from `first` up to, not
/// including, `row`, or in row `row` before column `col`.
pub open spec fn listed_before(first: i32, row: int, ys: (i32, i32), col: int, cell: CellKey) -> bool {
    ||| first <= cell.0 < row && ys.0 <= cell.1 <= ys.1
    ||| cell.0 == row && ys.0 <= cell.1 < col
}

/// Every cell of the ranges `xs` and `ys`, each once, row by row.
pub fn cells_in_ranges(xs: (i32, i32), ys: (i32, i32)) -> (out: Vec<CellKey>)
    requires
        xs.0 <= xs.1,
        ys.0 <= ys.1,
    ensures
        out@.no_duplicates(),
        forall|c: CellKey| #[trigger] out@.contains(c) <==> in_ranges(xs, ys, c),
{
    let mut out: Vec<CellKey> = Vec::new();
    let mut ix = xs.0;
    loop
        invariant_except_break
            xs.0 <= ix <= xs.1,
            forall|c: CellKey|
                #[trigger] out@.contains(c) <==> listed_before(xs.0, ix as int, ys, ys.0 as int, c),
        invariant
            xs.0 <= xs.1,
            ys.0 <= ys.1,
            out@.no_duplicates(),
        ensures
            forall|c: CellKey| #[trigger] out@.contains(c) <==> in_ranges(xs, ys, c),
        decreases xs.1 - ix,
    {
        let mut iy = ys.0;
        loop
            invariant_except_break
                ys.0 <= iy <= ys.1,
                forall|c: CellKey|
                    #[trigger] out@.contains(c) <==> listed_before(
                        xs.0,
                        ix as int,
                        ys,
                        iy as int,
                        c,
                    ),
            invariant
                xs.0 <= ix <= xs.1,
                ys.0 <= ys.1,
                out@.no_duplicates(),
            ensures
                forall|c: CellKey|
                    #[trigger] out@.contains(c) <==> listed_before(
                        xs.0,
                        ix as int,
                        ys,
                        ys.1 + 1,
                        c,
                    ),
            decreases ys.1 - iy,
        {
            let ghost prev = out@;
            proof {
                lemma_push_contains(prev, (ix, iy));
                assert(!prev.contains((ix, iy)));
            }
            out.push((ix, iy));
            proof {
                assert forall|c: CellKey| #[trigger] out@.contains(c) <==> listed_before(
                    xs.0,
                    ix as int,
                    ys,
                    iy + 1,
                    c,
                ) by {
                    assert(prev.push((ix, iy)).contains(c) <==> prev.contains(c) || c == (ix, iy));
                    assert(prev.contains(c) <==> listed_before(xs.0, ix as int, ys, iy as int, c));
                }
            }
            if iy == ys.1 {
                break ;
            }
            iy += 1;
        }
        proof {
            assert forall|c: CellKey| #[trigger] out@.contains(c) <==> listed_before(
                xs.0,
                ix + 1,
                ys,
                ys.0 as int,
                c,
            ) by {
                assert(out@.contains(c) <==> listed_before(xs.0, ix as int, ys, ys.1 + 1, c));
            }
        }
        if ix == xs.1 {
            break ;
        }
        ix += 1;
    }
    out
}

/// Every cell with an entry has slots, each once.
pub open spec fn map_ok(cells: Map<CellKey, Seq<usize>>) -> bool {
    forall|c: CellKey|
        #![trigger cells[c]]
        cells.dom().contains(c) ==> cells[c].len() > 0 && cells[c].no_duplicates()
}

/// What `swap_remove` leaves of a list without duplicates: every slot but
/// the removed one, each once.
pub proof fn lemma_swap_removed(list: Seq<usize>, pos: int)
    requires
        list.no_duplicates(),
        0 <= pos < list.len(),
    ensures
        swap_removed(list, pos).no_duplicates(),
        swap_removed(list, pos).len() == list.len() - 1,
        forall|x: usize|
            #[trigger] swap_removed(list, pos).contains(x) <==> list.contains(x) && x != list[pos],
{
    let r = swap_removed(list, pos);
    let last = list.len() - 1;
    assert forall|a: int, b: int| 0 <= a < r.len() && 0 <= b < r.len() && a != b implies r[a]
        != r[b] by {
        let a2 = if a == pos { last } else { a };
        let b2 = if b == pos { last } else { b };
        assert(r[a] == list[a2]);
        assert(r[b] == list[b2]);
    }
    assert forall|x: usize| #[trigger] r.contains(x) <==> list.contains(x) && x != list[pos] by {
        if r.contains(x) {
            let a = choose|a: int| 0 <= a < r.len() && r[a] == x;
            let a2 = if a == pos { last } else { a };
            assert(r[a] == list[a2]);
            assert(list[a2] != list[pos]);
        }
        if list.contains(x) && x != list[pos] {
            let a = choose|a: int| 0 <= a < list.len() && list[a] == x;
            if a == last {
                assert(r[pos] == x);
            } else {
                assert(r[a] == x);
            }
        }
    }
}

/// Append `slot` to each cell of `list`.
fn add_slot(cells: &mut CellMap, slot: usize, list: &Vec<CellKey>)
    requires
        list@.no_duplicates(),
        map_ok(cell_map_cells(*old(cells))),
        forall|c: CellKey|
            list@.contains(c) ==> !slots_in(cell_map_cells(*old(cells)), c).contains(slot),
    ensures
        map_ok(cell_map_cells(*final(cells))),
        forall|c: CellKey, x: usize|
            #![trigger slots_in(cell_map_cells(*final(cells)), c).contains(x)]
            slots_in(cell_map_cells(*final(cells)), c).contains(x) <==> slots_in(
                cell_map_cells(*old(cells)),
                c,
            ).contains(x) || (x == slot && list@.contains(c)),
{
    let ghost before = cell_map_cells(*cells);
    let mut k: usize = 0;
    while k < list.len()
        invariant
            k <= list.len(),
            list@.no_duplicates(),
            map_ok(cell_map_cells(*cells)),
            forall|c: CellKey|
                list@.contains(c) ==> !slots_in(before, c).contains(slot),
            forall|c: CellKey, x: usize|
                #![trigger slots_in(cell_map_cells(*cells), c).contains(x)]
                slots_in(cell_map_cells(*cells), c).contains(x) <==> slots_in(before, c).contains(
                    x,
                ) || (x == slot && list@.take(k as int).contains(c)),
        decreases list.len() - k,
    {
        let cell = list[k];
        let ghost mid = cell_map_cells(*cells);
        let ghost done = list@.take(k as int);
        proof {
            assert(list@.contains(cell));
            assert(!done.contains(cell)) by {
                if done.contains(cell) {
                    let w = choose|w: int| 0 <= w < done.len() && done[w] == cell;
                    assert(list@[w] == list@[k as int]);
                }
            }
            assert(!slots_in(mid, cell).contains(slot));
            lemma_push_contains(slots_in(mid, cell), slot);
            assert(list@.take(k as int + 1) == done.push(cell));
            lemma_push_contains(done, cell);
        }
        cell_map_push(cells, cell, slot);
        proof {
            let now = cell_map_cells(*cells);
            assert forall|c: CellKey|
                #![trigger now[c]]
                now.dom().contains(c) implies now[c].len() > 0 && now[c].no_duplicates() by {
                if c == cell {
                    let old_list = slots_in(mid, cell);
                    assert(now[c] == old_list.push(slot));
                    if mid.dom().contains(cell) {
                        assert(mid[cell].no_duplicates());
                    }
                    assert forall|a: int, b: int|
                        0 <= a < now[c].len() && 0 <= b < now[c].len() && a != b implies now[c][a]
                        != now[c][b] by {
                        if a < old_list.len() && b < old_list.len() {
                            assert(old_list[a] != old_list[b]);
                        } else if a < old_list.len() {
                            assert(old_list.contains(old_list[a]));
                        } else if b < old_list.len() {
                            assert(old_list.contains(old_list[b]));
                        }
                    }
                } else {
                    assert(mid.dom().contains(c));
                    assert(now[c] == mid[c]);
                }
            }
            assert forall|c: CellKey, x: usize|
                #![trigger slots_in(now, c).contains(x)]
                slots_in(now, c).contains(x) <==> slots_in(before, c).contains(x) || (x == slot
                    && list@.take(k as int + 1).contains(c)) by {
                assert(slots_in(mid, c).contains(x) <==> slots_in(before, c).contains(x) || (x
                    == slot && done.contains(c)));
                if c == cell {
                    assert(slots_in(now, c) == slots_in(mid, c).push(slot));
                } else {
                    assert(slots_in(now, c) == slots_in(mid, c));
                }
            }
        }
        k += 1;
    }
    assert(list@.take(list.len() as int) == list@);
}

/// The position of `slot` in `list`.
fn position_of(list: &Vec<usize>, slot: usize) -> (pos: usize)
    requires
        list@.contains(slot),
    ensures
        pos < list.len(),
        list[pos as int] == slot,
{
    let mut i: usize = 0;
    while i < list.len() && list[i] != slot
        invariant
            i <= list.len(),
            list@.contains(slot),
            forall|k: int| 0 <= k < i ==> list[k] != slot,
        decreases list.len() - i,
    {
        i += 1;
    }
    proof {
        if i == list.len() {
            let w = choose|w: int| 0 <= w < list.len() && list[w] == slot;
            assert(list[w] != slot);
        }
    }
    i
}

/// Take `slot` out of each cell of `list`, and drop the cells that are
/// left without slots: dropping empty cells keeps the map compact for
/// sparse grids.
fn remove_from_cells(cells: &mut CellMap, slot: usize, list: &Vec<CellKey>)
    requires
        list@.no_duplicates(),
        map_ok(cell_map_cells(*old(cells))),
        forall|c: CellKey|
            list@.contains(c) ==> slots_in(cell_map_cells(*old(cells)), c).contains(slot),
    ensures
        map_ok(cell_map_cells(*final(cells))),
        forall|c: CellKey, x: usize|
            #![trigger slots_in(cell_map_cells(*final(cells)), c).contains(x)]
            slots_in(cell_map_cells(*final(cells)), c).contains(x) <==> slots_in(
                cell_map_cells(*old(cells)),
                c,
            ).contains(x) && !(x == slot && list@.contains(c)),
{
    let ghost before = cell_map_cells(*cells);
    let mut k: usize = 0;
    while k < list.len()
        invariant
            k <= list.len(),
            list@.no_duplicates(),
            map_ok(cell_map_cells(*cells)),
            forall|c: CellKey| list@.contains(c) ==> slots_in(before, c).contains(slot),
            forall|c: CellKey, x: usize|
                #![trigger slots_in(cell_map_cells(*cells), c).contains(x)]
                slots_in(cell_map_cells(*cells), c).contains(x) <==> slots_in(before, c).contains(
                    x,
                ) && !(x == slot && list@.take(k as int).contains(c)),
        decreases list.len() - k,
    {
        let cell = list[k];
        let ghost mid = cell_map_cells(*cells);
        let ghost done = list@.take(k as int);
        proof {
            assert(list@.contains(cell));
            assert(!done.contains(cell)) by {
                if done.contains(cell) {
                    let w = choose|w: int| 0 <= w < done.len() && done[w] == cell;
                    assert(list@[w] == list@[k as int]);
                }
            }
            assert(slots_in(mid, cell).contains(slot));
            assert(list@.take(k as int + 1) == done.push(cell));
            lemma_push_contains(done, cell);
        }
        match cell_map_get(cells, cell) {
            Some(slots) => {
                let pos = position_of(&slots, slot);
                proof {
                    lemma_swap_removed(mid[cell], pos as int);
                }
                if slots.len() == 1 {
                    cell_map_remove(cells, cell);
                } else {
                    cell_map_swap_remove(cells, cell, pos);
                }
                proof {
                    let now = cell_map_cells(*cells);
                    let left = swap_removed(mid[cell], pos as int);
                    assert(slots_in(now, cell) =~= left) by {
                        if slots.len() == 1 {
                            assert(left.len() == 0);
                        }
                    }
                    assert forall|c: CellKey|
                        #![trigger now[c]]
                        now.dom().contains(c) implies now[c].len() > 0
                        && now[c].no_duplicates() by {
                        if c != cell {
                            assert(mid.dom().contains(c));
                            assert(now[c] == mid[c]);
                        }
                    }
                    assert forall|c: CellKey, x: usize|
                        #![trigger slots_in(now, c).contains(x)]
                        slots_in(now, c).contains(x) <==> slots_in(before, c).contains(x) && !(x
                            == slot && list@.take(k as int + 1).contains(c)) by {
                        assert(slots_in(mid, c).contains(x) <==> slots_in(before, c).contains(x)
                            && !(x == slot && done.contains(c)));
                        if c == cell {
                            assert(left.contains(x) <==> mid[cell].contains(x) && x
                                != mid[cell][pos as int]);
                        } else {
                            assert(slots_in(now, c) == slots_in(mid, c));
                        }
                    }
                }
            },
            None => {},
        }
        k += 1;
    }
    assert(list@.take(list.len() as int) == list@);
}

impl<T: GridScalar> Grid<T> {
    /// The cells that cover `aabb`, each once: an item spanning several
    /// cells is indexed under all of them.
    fn covered_cells(&self, aabb: &Aabb2D<T>) -> (out: Vec<CellKey>)
        requires
            T::usable(self.cell_size),
        ensures
            out@.no_duplicates(),
            forall|c: CellKey| #[trigger] out@.contains(c) <==> self.covers(*aabb, c),
    {
        let xs = self.cell_range(aabb.min_x, aabb.max_x, self.origin_x);
        let ys = self.cell_range(aabb.min_y, aabb.max_y, self.origin_y);
        cells_in_ranges(xs, ys)
    }

    /// Store `aabb` under `slot`: the slot leaves the cells it was in, if
    /// it was held, and enters the cells that cover `aabb`.
    fn put(&mut self, slot: usize, aabb: Aabb2D<T>)
        requires
            old(self).grid_ok(),
            slot < usize::MAX,
        ensures
            final(self).grid_ok(),
            final(self).held() == old(self).held().insert(slot, aabb),
    {
        let ghost g0 = *self;
        self.ensure_slot(slot);
        let ghost g1 = *self;
        proof {
            assert(g1.held() =~= g0.held());
            assert(g1.slots_ok());
            assert forall|c: CellKey, s: usize|
                #![trigger g1.lists(c, s)]
                g1.lists(c, s) <==> g1.held().dom().contains(s) && g1.covers(g1.held()[s], c) by {
                assert(g1.lists(c, s) == g0.lists(c, s));
                assert(g1.covers(g1.held()[s], c) == g0.covers(g0.held()[s], c));
            }
        }
        // If this slot was previously used, clean up its old cell memberships.
        let previous = self.slots[slot].take();
        let ghost c1 = cell_map_cells(self.cells);
        let ghost old_cells: Seq<CellKey> = if g1.slots[slot as int] is Some {
            cell_list_cells(g1.slots[slot as int]->0.cells)
        } else {
            Seq::empty()
        };
        if let Some(old) = previous {
            proof {
                assert(g1.slots[slot as int] == Some(old));
                assert forall|c: CellKey| cell_list_cells(old.cells).contains(c) implies slots_in(c1, c).contains(
                    slot,
                ) by {
                    assert(g1.covers(old.aabb, c));
                    assert(g1.held().dom().contains(slot));
                    assert(g1.lists(c, slot));
                }
            }
            let listed = cell_list_to_vec(&old.cells);
            remove_from_cells(&mut self.cells, slot, &listed);
        }
        let ghost c2 = cell_map_cells(self.cells);
        proof {
            assert forall|c: CellKey, x: usize|
                #![trigger slots_in(c2, c).contains(x)]
                slots_in(c2, c).contains(x) <==> slots_in(c1, c).contains(x) && x != slot by {
                if x == slot {
                    assert(g1.lists(c, slot) == slots_in(c1, c).contains(slot));
                    if g1.lists(c, slot) {
                        assert(g1.held().dom().contains(slot));
                        assert(g1.covers(g1.held()[slot], c));
                        assert(old_cells.contains(c));
                    }
                }
            }
        }
        let cells = self.covered_cells(&aabb);
        add_slot(&mut self.cells, slot, &cells);
        let ghost c3 = cell_map_cells(self.cells);
        let ghost new_cells = cells@;
        self.slots[slot] = Some(SlotEntry { aabb, cells: cell_list_from(&cells) });
        proof {
            assert(self.held() =~= g0.held().insert(slot, aabb));
            assert forall|s: int| 0 <= s < self.slots.len() implies (#[trigger] self.slots[s] matches Some(
                e,
            ) ==> cell_list_cells(e.cells).no_duplicates() && forall|c: CellKey|
                cell_list_cells(e.cells).contains(c) <==> self.covers(e.aabb, c)) by {
                if s != slot {
                    assert(self.slots[s] == g1.slots[s]);
                    match g1.slots[s] {
                        Some(e) => {
                            assert forall|c: CellKey|
                                cell_list_cells(e.cells).contains(c) <==> self.covers(e.aabb, c) by {
                                assert(self.covers(e.aabb, c) == g1.covers(e.aabb, c));
                            }
                        },
                        None => {},
                    }
                }
            }
            assert forall|c: CellKey, s: usize|
                #![trigger self.lists(c, s)]
                self.lists(c, s) <==> self.held().dom().contains(s) && self.covers(
                    self.held()[s],
                    c,
                ) by {
                assert(self.lists(c, s) == slots_in(c3, c).contains(s));
                assert(slots_in(c3, c).contains(s) <==> slots_in(c2, c).contains(s) || (s == slot
                    && new_cells.contains(c)));
                assert(slots_in(c2, c).contains(s) <==> slots_in(c1, c).contains(s) && s != slot);
                assert(g1.lists(c, s) == slots_in(c1, c).contains(s));
                if s != slot {
                    assert(g1.lists(c, s) <==> g1.held().dom().contains(s) && g1.covers(
                        g1.held()[s],
                        c,
                    ));
                    assert(self.covers(self.held()[s], c) == g1.covers(g1.held()[s], c));
                } else {
                    assert(new_cells.contains(c) <==> self.covers(aabb, c));
                }
            }
        }
    }

    /// Take the box under `slot` out of the grid. A slot not held is
    /// ignored.
    fn drop_slot(&mut self, slot: usize)
        requires
            old(self).grid_ok(),
        ensures
            final(self).grid_ok(),
            final(self).held() == old(self).held().remove(slot),
    {
        let ghost g1 = *self;
        if slot >= self.slots.len() {
            assert(self.held() =~= g1.held().remove(slot));
            return ;
        }
        let previous = self.slots[slot].take();
        let ghost c1 = cell_map_cells(self.cells);
        let ghost old_cells: Seq<CellKey> = if g1.slots[slot as int] is Some {
            cell_list_cells(g1.slots[slot as int]->0.cells)
        } else {
            Seq::empty()
        };
        if let Some(entry) = previous {
            proof {
                assert(g1.slots[slot as int] == Some(entry));
                assert forall|c: CellKey| cell_list_cells(entry.cells).contains(c) implies slots_in(
                    c1,
                    c,
                ).contains(slot) by {
                    assert(g1.covers(entry.aabb, c));
                    assert(g1.held().dom().contains(slot));
                    assert(g1.lists(c, slot));
                }
            }
            let listed = cell_list_to_vec(&entry.cells);
            remove_from_cells(&mut self.cells, slot, &listed);
        }
        let ghost c2 = cell_map_cells(self.cells);
        proof {
            assert(self.held() =~= g1.held().remove(slot));
            assert forall|s: int| 0 <= s < self.slots.len() implies (#[trigger] self.slots[s] matches Some(
                e,
            ) ==> cell_list_cells(e.cells).no_duplicates() && forall|c: CellKey|
                cell_list_cells(e.cells).contains(c) <==> self.covers(e.aabb, c)) by {
                if s != slot {
                    assert(self.slots[s] == g1.slots[s]);
                    match g1.slots[s] {
                        Some(e) => {
                            assert forall|c: CellKey|
                                cell_list_cells(e.cells).contains(c) <==> self.covers(e.aabb, c) by {
                                assert(self.covers(e.aabb, c) == g1.covers(e.aabb, c));
                            }
                        },
                        None => {},
                    }
                }
            }
            assert forall|c: CellKey, s: usize|
                #![trigger self.lists(c, s)]
                self.lists(c, s) <==> self.held().dom().contains(s) && self.covers(
                    self.held()[s],
                    c,
                ) by {
                assert(self.lists(c, s) == slots_in(c2, c).contains(s));
                assert(g1.lists(c, s) == slots_in(c1, c).contains(s));
                assert(g1.lists(c, s) <==> g1.held().dom().contains(s) && g1.covers(
                    g1.held()[s],
                    c,
                ));
                if previous is Some {
                    assert(slots_in(c2, c).contains(s) <==> slots_in(c1, c).contains(s) && !(s
                        == slot && old_cells.contains(c)));
                }
                if s != slot {
                    assert(self.covers(self.held()[s], c) == g1.covers(g1.held()[s], c));
                } else if g1.lists(c, s) {
                    assert(old_cells.contains(c));
                }
            }
        }
    }
}

impl<T: GridScalar> Grid<T> {
    /// The cell of a point that a box contains is one of the cells that
    /// cover the box.
    proof fn lemma_point_cell_covered(&self, aabb: Aabb2D<T>, x: T, y: T)
        requires
            T::usable(self.cell_size),
            ordered::<T>(),
            aabb.contains(x, y),
        ensures
            self.covers(
                aabb,
                (T::cell_of(x, self.origin_x, self.cell_size), T::cell_of(
                    y,
                    self.origin_y,
                    self.cell_size,
                )),
            ),
    {
        T::lemma_cell_of_monotonic(aabb.min_x, x, self.origin_x, self.cell_size);
        T::lemma_cell_of_monotonic(x, aabb.max_x, self.origin_x, self.cell_size);
        T::lemma_cell_of_monotonic(aabb.min_y, y, self.origin_y, self.cell_size);
        T::lemma_cell_of_monotonic(y, aabb.max_y, self.origin_y, self.cell_size);
    }

    /// Two boxes that overlap are both covered by some cell.
    proof fn lemma_common_cell(&self, a: Aabb2D<T>, b: Aabb2D<T>) -> (c: CellKey)
        requires
            T::usable(self.cell_size),
            ordered::<T>(),
            a.touches(b),
        ensures
            self.covers(a, c),
            self.covers(b, c),
    {
        T::lemma_cell_of_monotonic(a.min_x, b.max_x, self.origin_x, self.cell_size);
        T::lemma_cell_of_monotonic(b.min_x, a.max_x, self.origin_x, self.cell_size);
        T::lemma_cell_of_monotonic(a.min_y, b.max_y, self.origin_y, self.cell_size);
        T::lemma_cell_of_monotonic(b.min_y, a.max_y, self.origin_y, self.cell_size);
        let ax = cells_along(a.min_x, a.max_x, self.origin_x, self.cell_size);
        let bx = cells_along(b.min_x, b.max_x, self.origin_x, self.cell_size);
        let ay = cells_along(a.min_y, a.max_y, self.origin_y, self.cell_size);
        let by = cells_along(b.min_y, b.max_y, self.origin_y, self.cell_size);
        let cx = if ax.0 >= bx.0 {
            ax.0
        } else {
            bx.0
        };
        let cy = if ay.0 >= by.0 {
            ay.0
        } else {
            by.0
        };
        (cx, cy)
    }

    /// The box held under a slot that a cell lists.
    fn slot_entry_box(&self, cell: Ghost<CellKey>, slot: usize) -> (aabb: Aabb2D<T>)
        requires
            self.grid_ok(),
            self.lists(cell@, slot),
        ensures
            self.held().dom().contains(slot),
            aabb == self.held()[slot],
            self.covers(aabb, cell@),
    {
        match &self.slots[slot] {
            Some(e) => e.aabb,
            None => vstd::pervasive::unreached(),
        }
    }
}

impl<T: GridScalar> Backend<T> for Grid<T> {
    open spec fn boxes(&self) -> Map<usize, Aabb2D<T>> {
        self.held()
    }

    open spec fn wf(&self) -> bool {
        self.grid_ok()
    }

    fn insert(&mut self, slot: usize, aabb: Aabb2D<T>) {
        self.put(slot, aabb);
    }

    /// The slot is bucketed anew, also where its box did not change.
    fn update(&mut self, slot: usize, aabb: Aabb2D<T>) {
        self.put(slot, aabb);
    }

    fn remove(&mut self, slot: usize) {
        self.drop_slot(slot);
    }

    fn clear(&mut self) {
        cell_map_clear(&mut self.cells);
        self.slots.clear();
        proof {
            assert(self.held() =~= Map::<usize, Aabb2D<T>>::empty());
            assert(forall|c: CellKey, s: usize| !(#[trigger] self.lists(c, s)));
        }
    }

    /// The query touches exactly one cell: that of the point.
    fn query_point(&self, x: T, y: T) -> (out: Vec<usize>) {
        let ix = T::cell_coord(x, self.origin_x, self.cell_size);
        let iy = T::cell_coord(y, self.origin_y, self.cell_size);
        let mut out: Vec<usize> = Vec::new();
        let ghost cell = (ix, iy);
        if let Some(slots) = cell_map_get(&self.cells, (ix, iy)) {
            let mut k: usize = 0;
            proof {
                assert(slots@ == slots_in(cell_map_cells(self.cells), cell));
                assert(slots@.no_duplicates());
            }
            while k < slots.len()
                invariant
                    self.grid_ok(),
                    k <= slots.len(),
                    slots@ == slots_in(cell_map_cells(self.cells), cell),
                    slots@.no_duplicates(),
                    out@.no_duplicates(),
                    forall|i: int| 0 <= i < out.len() ==> slots@.take(k as int).contains(#[trigger] out[i]),
                    forall|i: int|
                        0 <= i < out.len() ==> self.held().dom().contains(#[trigger] out[i]),
                    ordered::<T>() ==> forall|s: usize|
                        #[trigger] out@.contains(s) <==> slots@.take(k as int).contains(s)
                            && self.held()[s].contains(x, y),
                decreases slots.len() - k,
            {
                let slot = slots[k];
                let ghost prev = out@;
                let ghost done = slots@.take(k as int);
                proof {
                    assert(slots@.contains(slot));
                    assert(self.lists(cell, slot));
                    assert(slots@.take(k as int + 1) == done.push(slot));
                    lemma_push_contains(done, slot);
                    assert(!done.contains(slot)) by {
                        if done.contains(slot) {
                            let w = choose|w: int| 0 <= w < done.len() && done[w] == slot;
                            assert(slots@[w] == slots@[k as int]);
                        }
                    }
                    lemma_push_contains(prev, slot);
                    assert(!prev.contains(slot)) by {
                        if prev.contains(slot) {
                            let w = choose|w: int| 0 <= w < prev.len() && prev[w] == slot;
                            assert(done.contains(prev[w]));
                        }
                    }
                }
                let aabb = self.slot_entry_box(Ghost(cell), slot);
                let hit = aabb.contains_point(x, y);
                if hit {
                    out.push(slot);
                }
                proof {
                    assert forall|i: int| 0 <= i < out.len() implies slots@.take(
                        k as int + 1,
                    ).contains(#[trigger] out[i]) by {
                        if i < prev.len() {
                            assert(done.contains(prev[i]));
                        }
                    }
                    if ordered::<T>() {
                        assert forall|s: usize|
                            #[trigger] out@.contains(s) <==> slots@.take(k as int + 1).contains(s)
                                && self.held()[s].contains(x, y) by {
                            assert(prev.contains(s) <==> done.contains(s)
                                && self.held()[s].contains(x, y));
                        }
                    }
                }
                k += 1;
            }
            proof {
                assert(slots@.take(slots.len() as int) == slots@);
            }
        }
        proof {
            assert(self.boxes() == self.held());
            if ordered::<T>() {
                assert forall|s: usize|
                    out@.contains(s) <==> slots_containing(self.held(), x, y).contains(s) by {
                    if slots_containing(self.held(), x, y).contains(s) {
                        self.lemma_point_cell_covered(self.held()[s], x, y);
                        assert(self.lists(cell, s));
                    }
                    if out@.contains(s) {
                        let w = choose|w: int| 0 <= w < out@.len() && out@[w] == s;
                        assert(self.held().dom().contains(out[w]));
                    }
                }
                assert(out@.to_set() =~= slots_containing(self.held(), x, y));
            }
        }
        out
    }

    /// The query walks the cells that the rectangle covers and reports a
    /// slot once, however many of those cells list it.
    fn query_rect(&self, rect: Aabb2D<T>) -> (out: Vec<usize>) {
        let xs = self.cell_range(rect.min_x, rect.max_x, self.origin_x);
        let ys = self.cell_range(rect.min_y, rect.max_y, self.origin_y);
        let cells = cells_in_ranges(xs, ys);
        let mut seen = seen_new();
        let mut out: Vec<usize> = Vec::new();
        let mut k: usize = 0;
        while k < cells.len()
            invariant
                self.grid_ok(),
                k <= cells.len(),
                forall|c: CellKey| #[trigger] cells@.contains(c) <==> self.covers(rect, c),
                out@.no_duplicates(),
                forall|i: int| 0 <= i < out.len() ==> seen_items(seen).contains(#[trigger] out[i]),
                forall|i: int| 0 <= i < out.len() ==> self.held().dom().contains(#[trigger] out[i]),
                forall|s: usize|
                    #[trigger] seen_items(seen).contains(s) <==> exists|w: int|
                        0 <= w < k && self.lists(#[trigger] cells[w], s),
                ordered::<T>() ==> forall|s: usize|
                    #[trigger] out@.contains(s) <==> seen_items(seen).contains(s)
                        && self.held()[s].touches(rect),
            decreases cells.len() - k,
        {
            let cell = cells[k];
            let ghost seen0 = seen_items(seen);
            if let Some(slots) = cell_map_get(&self.cells, cell) {
                let mut j: usize = 0;
                proof {
                    assert(slots@ == slots_in(cell_map_cells(self.cells), cell));
                }
                while j < slots.len()
                    invariant
                        self.grid_ok(),
                        k < cells.len(),
                        cell == cells[k as int],
                        j <= slots.len(),
                        slots@ == slots_in(cell_map_cells(self.cells), cell),
                        out@.no_duplicates(),
                        forall|i: int|
                            0 <= i < out.len() ==> seen_items(seen).contains(#[trigger] out[i]),
                        forall|i: int|
                            0 <= i < out.len() ==> self.held().dom().contains(#[trigger] out[i]),
                        forall|s: usize|
                            #[trigger] seen_items(seen).contains(s) <==> seen0.contains(s)
                                || slots@.take(j as int).contains(s),
                        ordered::<T>() ==> forall|s: usize|
                            #[trigger] out@.contains(s) <==> seen_items(seen).contains(s)
                                && self.held()[s].touches(rect),
                    decreases slots.len() - j,
                {
                    let slot = slots[j];
                    let ghost prev = out@;
                    let ghost before = seen_items(seen);
                    let ghost done = slots@.take(j as int);
                    proof {
                        assert(slots@.contains(slot));
                        assert(self.lists(cell, slot));
                        assert(slots@.take(j as int + 1) == done.push(slot));
                        lemma_push_contains(done, slot);
                        lemma_push_contains(prev, slot);
                    }
                    let fresh = seen_insert(&mut seen, slot);
                    if fresh {
                        let aabb = self.slot_entry_box(Ghost(cell), slot);
                        if aabb.overlaps(&rect) {
                            proof {
                                assert(!prev.contains(slot)) by {
                                    if prev.contains(slot) {
                                        let w = choose|w: int|
                                            0 <= w < prev.len() && prev[w] == slot;
                                        assert(before.contains(prev[w]));
                                    }
                                }
                            }
                            out.push(slot);
                        }
                    }
                    proof {
                        assert forall|s: usize|
                            #[trigger] seen_items(seen).contains(s) <==> seen0.contains(s)
                                || slots@.take(j as int + 1).contains(s) by {
                            assert(before.contains(s) <==> seen0.contains(s) || done.contains(s));
                        }
                        if ordered::<T>() {
                            assert forall|s: usize|
                                #[trigger] out@.contains(s) <==> seen_items(seen).contains(s)
                                    && self.held()[s].touches(rect) by {
                                assert(prev.contains(s) <==> before.contains(s)
                                    && self.held()[s].touches(rect));
                            }
                        }
                    }
                    j += 1;
                }
                proof {
                    assert(slots@.take(slots.len() as int) == slots@);
                }
            }
            proof {
                assert forall|s: usize|
                    #[trigger] seen_items(seen).contains(s) <==> exists|w: int|
                        0 <= w < k + 1 && self.lists(#[trigger] cells[w], s) by {
                    assert(seen0.contains(s) <==> exists|w: int|
                        0 <= w < k && self.lists(#[trigger] cells[w], s));
                    let listed = slots_in(cell_map_cells(self.cells), cell).contains(s);
                    assert(listed == self.lists(cell, s));
                    assert(seen_items(seen).contains(s) <==> seen0.contains(s) || listed);
                    if exists|w: int| 0 <= w < k + 1 && self.lists(#[trigger] cells[w], s) {
                        let w = choose|w: int| 0 <= w < k + 1 && self.lists(#[trigger] cells[w], s);
                        if w < k {
                            assert(self.lists(cells[w], s));
                        }
                    }
                    if listed {
                        assert(self.lists(cells[k as int], s));
                    }
                    if seen0.contains(s) {
                        let w = choose|w: int| 0 <= w < k && self.lists(#[trigger] cells[w], s);
                        assert(0 <= w < k + 1 && self.lists(cells[w], s));
                    }
                }
            }
            k += 1;
        }
        proof {
            assert(self.boxes() == self.held());
            if ordered::<T>() {
                assert forall|s: usize|
                    out@.contains(s) <==> slots_touching(self.held(), rect).contains(s) by {
                    if slots_touching(self.held(), rect).contains(s) {
                        let c = self.lemma_common_cell(self.held()[s], rect);
                        assert(self.lists(c, s));
                        assert(cells@.contains(c));
                        let w = choose|w: int| 0 <= w < cells@.len() && cells@[w] == c;
                        assert(self.lists(cells[w], s));
                        assert(seen_items(seen).contains(s));
                    }
                    if out@.contains(s) {
                        let w = choose|w: int| 0 <= w < out@.len() && out@[w] == s;
                        assert(self.held().dom().contains(out[w]));
                    }
                }
                assert(out@.to_set() =~= slots_touching(self.held(), rect));
            }
        }
        out
    }
}

/// Grid backend over `i64` coordinates.
pub type GridI64 = Grid<i64>;

} // verus!
