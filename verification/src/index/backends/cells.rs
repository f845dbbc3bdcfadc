//! The hashed collections of the grid backend, from `hashbrown` and
//! `smallvec`.
//!
//! The grid keeps its cells in a `hashbrown::HashMap` from cell coordinates
//! to a `smallvec::SmallVec` of slots, keeps for each slot a
//! `smallvec::SmallVec` of the cells it lies in, and de-duplicates the
//! slots of a rectangle query through a `hashbrown::HashSet`. `hashbrown`'s types take
//! an allocator parameter whose trait the crate keeps private, so neither
//! type can be declared to the verifier as it is. Each is held in a struct
//! whose inside the verifier does not see; what it holds has a name, and
//! the functions below are believed to do to it what they say.

use vstd::prelude::*;

verus! {

/// A cell of the grid: its coordinates along x and y.
pub type CellKey = (i32, i32);

/// The cells of a grid: a `hashbrown::HashMap` from cell coordinates to
/// the `SmallVec` of the slots in that cell.
#[verifier::external_body]
pub struct CellMap {
    inner: hashbrown::HashMap<(i32, i32), smallvec::SmallVec<[usize; 8]>>,
}

/// The slots seen so far by a query: a `hashbrown::HashSet`.
#[verifier::external_body]
pub struct SeenSet {
    inner: hashbrown::HashSet<usize>,
}

/// The cells of one slot: a `smallvec::SmallVec` of cell coordinates.
#[verifier::external_body]
#[derive(Debug)]
pub struct CellList {
    inner: smallvec::SmallVec<[(i32, i32); 4]>,
}

/// What a cell list holds: its cells in the order of the `SmallVec`.
pub uninterp spec fn cell_list_cells(l: CellList) -> Seq<CellKey>;

/// What a cell map holds: for each cell that has an entry, its slots in
/// the order of the `SmallVec`.
pub uninterp spec fn cell_map_cells(m: CellMap) -> Map<CellKey, Seq<usize>>;

/// What a seen-set holds.
pub uninterp spec fn seen_items(s: SeenSet) -> Set<usize>;

/// The cell map without entries.
pub open spec fn no_cells() -> Map<CellKey, Seq<usize>> {
    Map::empty()
}

/// The set without slots.
pub open spec fn no_slots() -> Set<usize> {
    Set::empty()
}

/// The slots of `cell`, and none where the cell has no entry.
pub open spec fn slots_in(cells: Map<CellKey, Seq<usize>>, cell: CellKey) -> Seq<usize> {
    if cells.dom().contains(cell) {
        cells[cell]
    } else {
        Seq::empty()
    }
}

/// `s` with the element at `pos` replaced by the last one and the last
/// one dropped: what `swap_remove` leaves.
pub open spec fn swap_removed(s: Seq<usize>, pos: int) -> Seq<usize> {
    s.update(pos, s.last()).drop_last()
}

/// `hashbrown::HashMap::new`: a map without entries.
#[verifier::external_body]
pub(crate) fn cell_map_new() -> (m: CellMap)
    ensures
        cell_map_cells(m) == no_cells(),
{
    CellMap { inner: hashbrown::HashMap::new() }
}

/// `hashbrown::HashMap::get`, with the slots of the cell copied out in
/// their order: `None` where the cell has no entry.
#[verifier::external_body]
pub(crate) fn cell_map_get(m: &CellMap, cell: CellKey) -> (r: Option<Vec<usize>>)
    ensures
        r is Some <==> cell_map_cells(*m).dom().contains(cell),
        r matches Some(v) ==> v@ == cell_map_cells(*m)[cell],
{
    match m.inner.get(&cell) {
        Some(slots) => Some(slots.to_vec()),
        None => None,
    }
}

/// `hashbrown::HashMap::entry` with `or_default`, then `SmallVec::push`:
/// the cell gets an entry if it has none, and `slot` is appended to its
/// slots.
#[verifier::external_body]
pub(crate) fn cell_map_push(m: &mut CellMap, cell: CellKey, slot: usize)
    ensures
        cell_map_cells(*final(m)) == cell_map_cells(*old(m)).insert(
            cell,
            slots_in(cell_map_cells(*old(m)), cell).push(slot),
        ),
{
    m.inner.entry(cell).or_default().push(slot);
}

/// `hashbrown::HashMap::get_mut`, then `SmallVec::swap_remove`: the slot
/// at `pos` of the cell is replaced by the cell's last slot, which is
/// dropped. The cell keeps its entry, also where it is left without slots.
#[verifier::external_body]
pub(crate) fn cell_map_swap_remove(m: &mut CellMap, cell: CellKey, pos: usize)
    requires
        cell_map_cells(*old(m)).dom().contains(cell),
        pos < cell_map_cells(*old(m))[cell].len(),
    ensures
        cell_map_cells(*final(m)) == cell_map_cells(*old(m)).insert(
            cell,
            swap_removed(cell_map_cells(*old(m))[cell], pos as int),
        ),
{
    if let Some(slots) = m.inner.get_mut(&cell) {
        slots.swap_remove(pos);
    }
}

/// `hashbrown::HashMap::remove`: the cell loses its entry, if it has one.
#[verifier::external_body]
pub(crate) fn cell_map_remove(m: &mut CellMap, cell: CellKey)
    ensures
        cell_map_cells(*final(m)) == cell_map_cells(*old(m)).remove(cell),
{
    m.inner.remove(&cell);
}

/// `hashbrown::HashMap::clear`: no cell keeps an entry.
#[verifier::external_body]
pub(crate) fn cell_map_clear(m: &mut CellMap)
    ensures
        cell_map_cells(*final(m)) == no_cells(),
{
    m.inner.clear();
}

/// `hashbrown::HashSet::new`: a set without elements.
#[verifier::external_body]
pub(crate) fn seen_new() -> (s: SeenSet)
    ensures
        seen_items(s) == no_slots(),
{
    SeenSet { inner: hashbrown::HashSet::new() }
}

/// `hashbrown::HashSet::insert`: the slot is in the set afterwards, and
/// the result says whether it was new.
#[verifier::external_body]
pub(crate) fn seen_insert(s: &mut SeenSet, slot: usize) -> (fresh: bool)
    ensures
        seen_items(*final(s)) == seen_items(*old(s)).insert(slot),
        fresh == !seen_items(*old(s)).contains(slot),
{
    s.inner.insert(slot)
}

/// `smallvec::SmallVec::from_slice`: a list of the same cells in the
/// same order.
#[verifier::external_body]
pub(crate) fn cell_list_from(cells: &Vec<CellKey>) -> (l: CellList)
    ensures
        cell_list_cells(l) == cells@,
{
    CellList { inner: smallvec::SmallVec::from_slice(cells.as_slice()) }
}

/// `smallvec::SmallVec::to_vec`: the cells of the list, copied out in
/// their order.
#[verifier::external_body]
pub(crate) fn cell_list_to_vec(l: &CellList) -> (cells: Vec<CellKey>)
    ensures
        cells@ == cell_list_cells(*l),
{
    l.inner.to_vec()
}

} // verus!
