//! Extent models, the visible-range computation and the list controller,
//! exercised with floating-point extents.

use std::num::NonZeroUsize;
use understory::virtual_list::{
    compute_visible_strip, ExtentModel, FixedExtentModel, GridTrackModel, PrefixSumExtentModel,
    Scalar, ScrollAlign, VirtualList, VisibleStrip,
};

/// A `f32` extent.
#[derive(Clone, Copy, Debug, PartialEq, PartialOrd)]
struct F32(f32);

impl Scalar for F32 {
    fn zero_spec() -> Self {
        Self::zero()
    }

    fn from_usize_spec(n: usize) -> Self {
        Self::from_usize(n)
    }

    fn add_spec(self, rhs: Self) -> Self {
        self.add(rhs)
    }

    fn sub_spec(self, rhs: Self) -> Self {
        self.sub(rhs)
    }

    fn mul_spec(self, rhs: Self) -> Self {
        self.mul(rhs)
    }

    fn div_spec(self, rhs: Self) -> Self {
        self.div(rhs)
    }

    fn lt_spec(self, rhs: Self) -> bool {
        self.lt(rhs)
    }

    fn le_spec(self, rhs: Self) -> bool {
        self.le(rhs)
    }

    fn same_spec(self, rhs: Self) -> bool {
        self.same(rhs)
    }

    fn max_spec(self, rhs: Self) -> Self {
        self.max(rhs)
    }

    fn min_spec(self, rhs: Self) -> Self {
        self.min(rhs)
    }

    fn negative_spec(self) -> bool {
        self.is_sign_negative()
    }

    fn finite_spec(self) -> bool {
        self.is_finite()
    }

    fn floor_spec(self) -> isize {
        self.floor_to_isize()
    }

    fn zero() -> Self {
        F32(0.0)
    }

    fn from_usize(n: usize) -> Self {
        F32(n as f32)
    }

    fn add(self, rhs: Self) -> Self {
        F32(self.0 + rhs.0)
    }

    fn sub(self, rhs: Self) -> Self {
        F32(self.0 - rhs.0)
    }

    fn mul(self, rhs: Self) -> Self {
        F32(self.0 * rhs.0)
    }

    fn div(self, rhs: Self) -> Self {
        F32(self.0 / rhs.0)
    }

    fn lt(self, rhs: Self) -> bool {
        self.0 < rhs.0
    }

    fn le(self, rhs: Self) -> bool {
        self.0 <= rhs.0
    }

    fn same(self, rhs: Self) -> bool {
        self.0 == rhs.0
    }

    fn max(self, rhs: Self) -> Self {
        F32(self.0.max(rhs.0))
    }

    fn min(self, rhs: Self) -> Self {
        F32(self.0.min(rhs.0))
    }

    fn is_sign_negative(self) -> bool {
        self.0.is_sign_negative()
    }

    fn is_finite(self) -> bool {
        self.0.is_finite()
    }

    fn floor_to_isize(self) -> isize {
        self.0.floor() as isize
    }
}

/// A `f64` extent.
#[derive(Clone, Copy, Debug, PartialEq, PartialOrd)]
struct F64(f64);

impl Scalar for F64 {
    fn zero_spec() -> Self {
        Self::zero()
    }

    fn from_usize_spec(n: usize) -> Self {
        Self::from_usize(n)
    }

    fn add_spec(self, rhs: Self) -> Self {
        self.add(rhs)
    }

    fn sub_spec(self, rhs: Self) -> Self {
        self.sub(rhs)
    }

    fn mul_spec(self, rhs: Self) -> Self {
        self.mul(rhs)
    }

    fn div_spec(self, rhs: Self) -> Self {
        self.div(rhs)
    }

    fn lt_spec(self, rhs: Self) -> bool {
        self.lt(rhs)
    }

    fn le_spec(self, rhs: Self) -> bool {
        self.le(rhs)
    }

    fn same_spec(self, rhs: Self) -> bool {
        self.same(rhs)
    }

    fn max_spec(self, rhs: Self) -> Self {
        self.max(rhs)
    }

    fn min_spec(self, rhs: Self) -> Self {
        self.min(rhs)
    }

    fn negative_spec(self) -> bool {
        self.is_sign_negative()
    }

    fn finite_spec(self) -> bool {
        self.is_finite()
    }

    fn floor_spec(self) -> isize {
        self.floor_to_isize()
    }

    fn zero() -> Self {
        F64(0.0)
    }

    fn from_usize(n: usize) -> Self {
        F64(n as f64)
    }

    fn add(self, rhs: Self) -> Self {
        F64(self.0 + rhs.0)
    }

    fn sub(self, rhs: Self) -> Self {
        F64(self.0 - rhs.0)
    }

    fn mul(self, rhs: Self) -> Self {
        F64(self.0 * rhs.0)
    }

    fn div(self, rhs: Self) -> Self {
        F64(self.0 / rhs.0)
    }

    fn lt(self, rhs: Self) -> bool {
        self.0 < rhs.0
    }

    fn le(self, rhs: Self) -> bool {
        self.0 <= rhs.0
    }

    fn same(self, rhs: Self) -> bool {
        self.0 == rhs.0
    }

    fn max(self, rhs: Self) -> Self {
        F64(self.0.max(rhs.0))
    }

    fn min(self, rhs: Self) -> Self {
        F64(self.0.min(rhs.0))
    }

    fn is_sign_negative(self) -> bool {
        self.0.is_sign_negative()
    }

    fn is_finite(self) -> bool {
        self.0.is_finite()
    }

    fn floor_to_isize(self) -> isize {
        self.0.floor() as isize
    }
}

#[derive(Clone, Debug)]
struct SimpleModel {
    extents: Vec<f32>,
}

impl SimpleModel {
    fn new(extents: &[f32]) -> Self {
        Self { extents: extents.to_vec() }
    }
}

impl ExtentModel for SimpleModel {
    type Scalar = F32;

    fn wf(&self) -> bool {
        true
    }

    fn len_spec(&self) -> usize {
        self.len()
    }

    fn total_spec(&self) -> Self::Scalar {
        self.clone().total_extent()
    }

    fn extent_spec(&self, index: usize) -> Self::Scalar {
        self.clone().extent_of(index)
    }

    fn offset_spec(&self, index: usize) -> Self::Scalar {
        self.clone().offset_of(index)
    }

    fn index_at_spec(&self, offset: Self::Scalar) -> usize {
        self.clone().index_at_offset(offset)
    }

    fn len(&self) -> usize {
        self.extents.len()
    }

    fn total_extent(&mut self) -> Self::Scalar {
        F32(self.extents.iter().copied().sum())
    }

    fn extent_of(&mut self, index: usize) -> Self::Scalar {
        F32(self.extents.get(index).copied().unwrap_or(0.0))
    }

    fn offset_of(&mut self, index: usize) -> Self::Scalar {
        F32(self.extents.iter().take(index).copied().sum())
    }

    fn index_at_offset(&mut self, offset: Self::Scalar) -> usize {
        let mut pos = 0.0;
        for (i, extent) in self.extents.iter().copied().enumerate() {
            if pos + extent > offset.0 {
                return i;
            }
            pos += extent;
        }
        self.extents.len().saturating_sub(1)
    }
}

#[test]
fn empty_model_yields_empty_strip() {
    let mut model = SimpleModel::new(&[]);
    let strip = compute_visible_strip(&mut model, F32(0.0), F32(100.0), F32(10.0), F32(10.0));
    assert_eq!(
        strip,
        VisibleStrip {
            start: 0,
            end: 0,
            before_extent: <F32 as Scalar>::zero(),
            after_extent: <F32 as Scalar>::zero(),
            content_extent: <F32 as Scalar>::zero(),
        }
    );
}

#[test]
fn simple_visible_range() {
    // Three items, each 10 units tall.
    let mut model = SimpleModel::new(&[10.0, 10.0, 10.0]);
    let strip = compute_visible_strip(&mut model, F32(5.0), F32(10.0), F32(0.0), F32(0.0));
    assert_eq!(strip.start, 0);
    assert_eq!(strip.end, 2);
    assert_eq!(strip.before_extent, F32(0.0));
    assert_eq!(strip.after_extent, F32(10.0));
    assert_eq!(strip.content_extent, F32(30.0));
}

#[test]
fn asymmetric_overscan_extends_in_one_direction() {
    let mut model = SimpleModel::new(&[10.0, 10.0, 10.0, 10.0]);
    // Viewport covers roughly items 1 and 2 (offset 10..30). Overscan only after.
    let strip = compute_visible_strip(&mut model, F32(10.0), F32(20.0), F32(0.0), F32(10.0));
    // We should still start at item 1, but extend end to include item 3.
    assert_eq!(strip.start, 1);
    assert_eq!(strip.end, 4);
}

#[test]
fn basic_offsets_and_indices() {
    let mut model = FixedExtentModel::new(5, F64(10.0));
    assert_eq!(model.total_extent(), F64(50.0));
    assert_eq!(model.offset_of(0), F64(0.0));
    assert_eq!(model.offset_of(3), F64(30.0));
    assert_eq!(model.index_at_offset(F64(0.0)), 0);
    assert_eq!(model.index_at_offset(F64(9.9)), 0);
    assert_eq!(model.index_at_offset(F64(10.0)), 1);
    assert_eq!(model.index_at_offset(F64(49.9)), 4);
    assert_eq!(model.index_at_offset(F64(100.0)), 4);
}

#[test]
fn fixed_negative_extents_are_clamped_to_zero() {
    let mut model = FixedExtentModel::new(3, F64(-5.0));
    // Constructor clamps finite negatives to 0.
    assert_eq!(model.extent(), F64(0.0));

    model.set_extent(F64(-10.0));
    assert_eq!(model.extent(), F64(0.0));
}

#[test]
fn basic_cell_to_track_mapping() {
    let track_model = FixedExtentModel::new(3, F32(10.0_f32));
    let grid = GridTrackModel::new(track_model, NonZeroUsize::new(4).unwrap().get(), 10);

    assert_eq!(grid.track_count(), 3);
    assert_eq!(grid.track_of_cell(0), 0);
    assert_eq!(grid.track_of_cell(3), 0);
    assert_eq!(grid.track_of_cell(4), 1);
    assert_eq!(grid.cell_in_track(4), 0);
    assert_eq!(grid.cell_in_track(7), 3);
}

#[test]
fn extent_and_offsets_come_from_tracks() {
    let track_model = FixedExtentModel::new(3, F32(10.0_f32));
    let mut grid = GridTrackModel::new(track_model, NonZeroUsize::new(4).unwrap().get(), 10);

    // Three tracks of extent 10: total 30.
    assert_eq!(grid.total_extent(), F32(30.0));

    // All cells in track 0 share offset 0 and extent 10.
    assert_eq!(grid.offset_of(0), F32(0.0));
    assert_eq!(grid.offset_of(3), F32(0.0));
    assert_eq!(grid.extent_of(0), F32(10.0));
    assert_eq!(grid.extent_of(3), F32(10.0));

    // Cells in track 1: offset 10.
    assert_eq!(grid.offset_of(4), F32(10.0));
    assert_eq!(grid.offset_of(7), F32(10.0));

    // Cells in track 2: offset 20 (partial track).
    assert_eq!(grid.offset_of(8), F32(20.0));
    assert_eq!(grid.offset_of(9), F32(20.0));
}

#[test]
fn index_at_offset_resolves_to_first_cell_in_track() {
    let track_model = FixedExtentModel::new(3, F32(10.0_f32));
    let mut grid = GridTrackModel::new(track_model, NonZeroUsize::new(4).unwrap().get(), 10);

    // Offsets within first track map to first cell (0).
    assert_eq!(grid.index_at_offset(F32(0.0)), 0);
    assert_eq!(grid.index_at_offset(F32(5.0)), 0);

    // Offsets in second track map to first cell of that track (4).
    assert_eq!(grid.index_at_offset(F32(10.0)), 4);
    assert_eq!(grid.index_at_offset(F32(19.9)), 4);

    // Offsets in third track map to first cell of that track (8).
    assert_eq!(grid.index_at_offset(F32(20.0)), 8);
    assert_eq!(grid.index_at_offset(F32(100.0)), 8);
}

#[test]
fn grows_and_reports_extents() {
    let mut model = PrefixSumExtentModel::<F32>::new();
    model.set_len(3);
    model.set_extent(0, F32(10.0));
    model.set_extent(1, F32(20.0));
    model.set_extent(2, F32(30.0));

    assert_eq!(model.len(), 3);
    assert_eq!(model.total_extent(), F32(60.0));
    assert_eq!(model.offset_of(0), F32(0.0));
    assert_eq!(model.offset_of(1), F32(10.0));
    assert_eq!(model.offset_of(2), F32(30.0));
    assert_eq!(model.extent_of(1), F32(20.0));
}

#[test]
fn index_lookup_uses_prefix_sums() {
    let mut model = PrefixSumExtentModel::<F32>::new();
    model.set_len(3);
    model.set_extent(0, F32(10.0));
    model.set_extent(1, F32(10.0));
    model.set_extent(2, F32(10.0));

    assert_eq!(model.index_at_offset(F32(0.0)), 0);
    assert_eq!(model.index_at_offset(F32(5.0)), 0);
    assert_eq!(model.index_at_offset(F32(10.0)), 1);
    assert_eq!(model.index_at_offset(F32(25.0)), 2);
    assert_eq!(model.index_at_offset(F32(100.0)), 2);
}

#[test]
fn prefix_sum_negative_extents_are_clamped_to_zero() {
    let mut model = PrefixSumExtentModel::<F32>::new();
    model.set_len(2);

    // Negative inputs are clamped to 0.
    model.set_extent(0, F32(-5.0));
    assert_eq!(model.extent_of(0), F32(0.0));
}

#[test]
fn rebuild_and_helpers_match_expectations() {
    let mut model = PrefixSumExtentModel::<F32>::new();
    let items = vec![10_u32, 20, 30];
    model.rebuild(&items, |v: &u32| F32(*v as f32));

    // Offsets and extents
    assert_eq!(model.offset_at(0), F32(0.0));
    assert_eq!(model.offset_at(1), F32(10.0));
    assert_eq!(model.extent_at(1), F32(20.0));

    // Total extent for first two items
    assert_eq!(model.total_extent_for_len(2), F32(30.0));

    // Index lookup bounded by len
    assert_eq!(model.index_at_offset_for_len(F32(0.0), 3), 0);
    assert_eq!(model.index_at_offset_for_len(F32(15.0), 3), 1);
    assert_eq!(model.index_at_offset_for_len(F32(40.0), 3), 2);
}

#[test]
fn visible_strip_tracks_scroll_and_viewport() {
    let model = FixedExtentModel::new(100, F32(10.0_f32));
    let mut list = VirtualList::new(model, F32(50.0), F32(0.0));

    // At top: items 0..5.
    let strip = list.visible_strip();
    assert_eq!(strip.start, 0);
    assert_eq!(strip.end, 5);

    // Scroll down by 10 units: items 1..6.
    list.scroll_by(F32(10.0));
    let strip = list.visible_strip();
    assert_eq!(strip.start, 1);
    assert_eq!(strip.end, 6);
    assert_eq!(list.first_visible_index(), Some(1));
    assert_eq!(list.last_visible_index(), Some(5));
}

#[test]
fn scroll_to_index_alignment_behaves_as_expected() {
    let model = FixedExtentModel::new(10, F32(10.0_f32));
    let mut list = VirtualList::new(model, F32(30.0), F32(0.0));

    // Start alignment: item 3 at top, offset 30.
    list.scroll_to_index(3, ScrollAlign::Start);
    assert!((list.scroll_offset().0 - 30.0_f32).abs() < f32::EPSILON);

    // End alignment: item 3 end at viewport end, offset 10 (viewport covers items 1-3).
    list.scroll_to_index(3, ScrollAlign::End);
    assert!((list.scroll_offset().0 - 10.0_f32).abs() < f32::EPSILON);

    // Center alignment: item 3 centered in viewport, offset 20.
    list.scroll_to_index(3, ScrollAlign::Center);
    assert!((list.scroll_offset().0 - 20.0_f32).abs() < f32::EPSILON);

    // Nearest alignment: if already fully visible, should not move.
    let before = list.scroll_offset();
    list.scroll_to_index(3, ScrollAlign::Nearest);
    assert!((list.scroll_offset().0 - before.0).abs() < f32::EPSILON);
}

#[test]
fn overscan_accessors_and_clamp_scroll_behave() {
    // 5 items * 10 = 50 content, viewport = 30: max offset = 20.
    let model = FixedExtentModel::new(5, F32(10.0_f32));
    let mut list = VirtualList::new(model, F32(30.0), F32(5.0));

    // set_overscan updates both before/after.
    assert_eq!(list.overscan_before(), F32(5.0_f32));
    assert_eq!(list.overscan_after(), F32(5.0_f32));
    list.set_overscan(F32(8.0_f32), F32(3.0_f32));
    assert_eq!(list.overscan_before(), F32(8.0_f32));
    assert_eq!(list.overscan_after(), F32(3.0_f32));

    // Clamp scroll so viewport stays within content.
    list.set_scroll_offset(F32(100.0_f32));
    list.clamp_scroll_to_content();
    assert!((list.scroll_offset().0 - 20.0_f32).abs() < f32::EPSILON);

    // When content fits inside viewport, clamp to 0.
    let model = FixedExtentModel::new(2, F32(10.0_f32));
    let mut list = VirtualList::new(model, F32(30.0), F32(0.0));
    list.set_scroll_offset(F32(10.0_f32));
    list.clamp_scroll_to_content();
    assert!((list.scroll_offset().0 - 0.0_f32).abs() < f32::EPSILON);
}

#[test]
fn visibility_queries_for_indices() {
    // 10 items * 10, viewport = 30: three items visible at a time.
    let model = FixedExtentModel::new(10, F32(10.0_f32));
    let mut list = VirtualList::new(model, F32(30.0), F32(0.0));

    // At top: items 0,1,2 fully visible.
    assert!(list.is_index_fully_visible(0));
    assert!(list.is_index_fully_visible(2));
    assert!(!list.is_index_fully_visible(3));
    assert!(list.is_index_partially_visible(2));
    assert!(!list.is_index_partially_visible(5));

    // Scroll down by 5: item 0 no longer visible, item 3 partially visible.
    list.scroll_by(F32(5.0_f32));
    assert!(list.is_index_partially_visible(0));
    assert!(list.is_index_partially_visible(3));
}

#[test]
fn grid_virtual_list_covers_all_cells_in_visible_tracks() {
    // 1000 cells, 3 cells per track, enough tracks to cover all cells.
    let total_cells: usize = 1000;
    let cells_per_track = NonZeroUsize::new(3).unwrap();

    // Each track is 10 units tall. The grid adapter will resize the
    // underlying track model based on `len` and `cells_per_track`.
    let row_model = FixedExtentModel::new(0, F32(10.0_f32));
    let grid_model = GridTrackModel::new(row_model, cells_per_track.get(), total_cells);

    // Viewport is 3 tracks tall: 3 * 10.
    let mut list = VirtualList::new(grid_model, F32(30.0_f32), F32(0.0));

    let strip = list.visible_strip();
    // At scroll_offset = 0, we expect the first three tracks to be visible:
    // 3 tracks x 3 cells per track = 9 cells (indices 0..9).
    assert_eq!(strip.start, 0);
    assert_eq!(strip.end, 9);
}

#[test]
fn integer_extents_follow_the_same_rules() {
    let mut model = FixedExtentModel::new(5, 10i64);
    assert_eq!(model.total_extent(), 50);
    assert_eq!(model.offset_of(3), 30);
    assert_eq!(model.index_at_offset(-7), 0);
    assert_eq!(model.index_at_offset(19), 1);
    assert_eq!(model.index_at_offset(20), 2);
    let strip = compute_visible_strip(&mut model, 5, 10, 0, 0);
    assert_eq!(strip.start, 0);
    assert_eq!(strip.end, 2);
    assert_eq!(strip.before_extent, 0);
    assert_eq!(strip.after_extent, 30);
    assert_eq!(strip.content_extent, 50);
}

#[test]
fn integer_scalar_saturates_and_floors() {
    assert_eq!(<i64 as Scalar>::add(i64::MAX, 1), i64::MAX);
    assert_eq!(<i64 as Scalar>::sub(i64::MIN, 1), i64::MIN);
    assert_eq!(<i64 as Scalar>::mul(i64::MAX, -2), i64::MIN);
    assert_eq!(<i64 as Scalar>::div(-7, 2), -4);
    assert_eq!(<i64 as Scalar>::div(7, -2), -4);
    assert_eq!(<i64 as Scalar>::div(7, 2), 3);
    assert_eq!(<i64 as Scalar>::div(7, 0), 0);
    assert_eq!(<i64 as Scalar>::from_usize(3), 3);
}

#[test]
fn list_accessors_and_ranges() {
    let model = FixedExtentModel::new(100, 10i64);
    let mut list = VirtualList::new(model, 35, 0);
    assert_eq!(list.viewport_extent(), 35);
    assert_eq!(list.visible_indices(), 0..4);
    list.set_viewport_extent(-5);
    assert_eq!(list.viewport_extent(), 0);
    list.set_viewport_extent(20);
    list.set_scroll_offset(15);
    assert_eq!(list.visible_indices(), 1..4);
    // A change made through the model is seen at the next query.
    list.model_mut().set_len(2);
    assert_eq!(list.visible_indices(), 1..2);
    list.model_mut().set_len(0);
    assert_eq!(list.visible_indices(), 0..0);
}

#[test]
fn grid_tracks_follow_their_cells() {
    let tracks = FixedExtentModel::new(0, 10i64);
    let mut grid = GridTrackModel::new(tracks, 3, 10);
    assert_eq!(grid.track_count(), 4);
    assert_eq!(grid.total_extent(), 40);
    assert_eq!(grid.track_of_cell(7), 2);
    grid.set_cells_per_track(4);
    assert_eq!(grid.track_count(), 3);
    assert_eq!(grid.total_extent(), 30);
    assert_eq!(grid.track_of_cell(7), 1);
    grid.track_model_mut().set_extent(5);
    assert_eq!(grid.total_extent(), 15);
    assert_eq!(understory::virtual_list::fixed::clamp_negative(-3i64), 0);
    assert_eq!(understory::virtual_list::fixed::clamp_negative(3i64), 3);
}

#[test]
fn default_prefix_sum_model_is_empty() {
    let mut model: PrefixSumExtentModel<i64> = Default::default();
    assert_eq!(model.len(), 0);
    assert_eq!(model.total_extent(), 0);
    let mut copy = model.clone();
    copy.set_len(2);
    assert_eq!(copy.len(), 2);
    assert_eq!(model.len(), 0);
}

#[test]
fn resizing_keeps_the_items_that_stay() {
    let mut model: PrefixSumExtentModel<i64> = PrefixSumExtentModel::new();
    model.set_len(4);
    for (i, e) in [10, 20, 30, 40].into_iter().enumerate() {
        model.set_extent(i, e);
    }
    let mut grid = GridTrackModel::new(model, 2, 6);
    assert_eq!(grid.track_count(), 3);
    assert_eq!(grid.track_model().len(), 3);
    assert_eq!(grid.extent_of(0), 10);
    assert_eq!(grid.extent_of(5), 30);
    assert_eq!(grid.offset_of(4), 30);
    grid.set_len(10);
    assert_eq!(grid.track_count(), 5);
    assert_eq!(grid.extent_of(5), 30);
    assert_eq!(grid.offset_of(4), 30);
    assert_eq!(grid.extent_of(9), 0);
    // The index found is that of the last item that starts at or before the offset.
    let mut sums: PrefixSumExtentModel<i64> = PrefixSumExtentModel::new();
    sums.set_len(4);
    for (i, e) in [10, 0, 30, 40].into_iter().enumerate() {
        sums.set_extent(i, e);
    }
    assert_eq!(sums.index_at_offset(0), 0);
    assert_eq!(sums.index_at_offset(9), 0);
    assert_eq!(sums.index_at_offset(10), 2);
    assert_eq!(sums.index_at_offset(39), 2);
    assert_eq!(sums.index_at_offset(40), 3);
    assert_eq!(sums.index_at_offset(1000), 3);
    assert_eq!(sums.index_at_offset(-5), 0);
}
