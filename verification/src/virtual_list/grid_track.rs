//! An extent model adapter that maps a per-track model onto per-cell
//! indices.
//!
//! This is useful for grid-like layouts where the scroll axis operates over
//! tracks (rows of a vertical grid, columns of a horizontal one) while the
//! backing data is indexed as a flat sequence of cells. Each track holds a
//! fixed number of cells, and a cell has the extent and offset of its
//! track.

use crate::virtual_list::model::{items_kept, ExtentModel, ResizableExtentModel};
use crate::virtual_list::scalar::Scalar;
use vstd::prelude::*;

verus! {

/// Adapts a per-track [`ExtentModel`] into a per-cell model for grid
/// layouts.
#[derive(Debug, Clone)]
pub struct GridTrackModel<M: ResizableExtentModel> {
    /// Extents and offsets of the tracks.
    pub track_model: M,
    /// Number of cells in each track; above zero.
    pub cells_per_track: usize,
    /// Total number of cells.
    pub len: usize,
}

/// Number of tracks needed for `len` cells: the quotient rounded up.
pub open spec fn tracks_for(len: usize, cells_per_track: usize) -> usize {
    if len == 0 {
        0
    } else {
        ((len - 1) / (cells_per_track as int) + 1) as usize
    }
}

/// The track of cell `index`, which is clamped to the last cell.
pub open spec fn track_at(len: usize, cells_per_track: usize, index: usize) -> usize {
    let clamped = if index < len - 1 {
        index as int
    } else {
        len - 1
    };
    (clamped / (cells_per_track as int)) as usize
}

/// The first cell of `track`, capped at the last cell.
pub open spec fn first_cell(len: usize, cells_per_track: usize, track: usize) -> usize {
    if track * cells_per_track < len - 1 {
        (track * cells_per_track) as usize
    } else {
        (len - 1) as usize
    }
}

/// Compute [`tracks_for`] without overflow.
fn count_tracks(len: usize, cells_per_track: usize) -> (r: usize)
    requires
        cells_per_track > 0,
    ensures
        r == tracks_for(len, cells_per_track),
{
    if len == 0 {
        0
    } else {
        (len - 1) / cells_per_track + 1
    }
}

impl<M: ResizableExtentModel> GridTrackModel<M> {
    /// Creates a new [`GridTrackModel`].
    ///
    /// - `track_model` describes the extent and offset of each track.
    /// - `cells_per_track` is the number of cells in each track.
    /// - `len` is the total number of cells in the flattened grid.
    ///
    /// The track model is resized to `ceil(len / cells_per_track)` tracks;
    /// the tracks that it keeps have the extents and offsets they had.
    pub fn new(track_model: M, cells_per_track: usize, len: usize) -> (r: Self)
        requires
            track_model.wf(),
            cells_per_track > 0,
        ensures
            r.wf(),
            r.cells_per_track == cells_per_track,
            r.len == len,
            r.track_model.len_spec() == tracks_for(len, cells_per_track),
            items_kept(&track_model, &r.track_model),
    {
        let mut track_model = track_model;
        track_model.set_len(count_tracks(len, cells_per_track));
        Self { track_model, cells_per_track, len }
    }

    /// Returns a shared reference to the underlying track model.
    pub fn track_model(&self) -> (r: &M)
        ensures
            *r == self.track_model,
    {
        &self.track_model
    }

    /// Returns a mutable reference to the underlying track model.
    pub fn track_model_mut(&mut self) -> (r: &mut M)
        ensures
            *r == old(self).track_model,
            final(self).track_model == *final(r),
            final(self).cells_per_track == old(self).cells_per_track,
            final(self).len == old(self).len,
    {
        &mut self.track_model
    }

    /// Returns the number of cells per track.
    pub fn cells_per_track(&self) -> (r: usize)
        ensures
            r == self.cells_per_track,
    {
        self.cells_per_track
    }

    /// Sets the number of cells per track and resizes the track model to
    /// the number of tracks then needed.
    pub fn set_cells_per_track(&mut self, cells_per_track: usize)
        requires
            old(self).wf(),
            cells_per_track > 0,
        ensures
            final(self).wf(),
            final(self).cells_per_track == cells_per_track,
            final(self).len == old(self).len,
            final(self).track_model.len_spec() == tracks_for(old(self).len, cells_per_track),
            items_kept(&old(self).track_model, &final(self).track_model),
    {
        self.cells_per_track = cells_per_track;
        let track_count = self.track_count();
        self.track_model.set_len(track_count);
    }

    /// Returns the total number of cells in the grid.
    pub fn len(&self) -> (r: usize)
        ensures
            r == self.len,
    {
        self.len
    }

    /// Sets the total number of cells in the grid and resizes the track
    /// model to the number of tracks then needed.
    pub fn set_len(&mut self, len: usize)
        requires
            old(self).wf(),
        ensures
            final(self).wf(),
            final(self).cells_per_track == old(self).cells_per_track,
            final(self).len == len,
            final(self).track_model.len_spec() == tracks_for(len, old(self).cells_per_track),
            items_kept(&old(self).track_model, &final(self).track_model),
    {
        self.len = len;
        let track_count = self.track_count();
        self.track_model.set_len(track_count);
    }

    /// Returns `true` if there are no cells in this grid.
    pub fn is_empty(&self) -> (r: bool)
        ensures
            r == (self.len == 0),
    {
        self.len == 0
    }

    /// Returns the track index containing `cell_index`: the quotient
    /// `cell_index / cells_per_track`.
    pub fn track_of_cell(&self, cell_index: usize) -> (r: usize)
        requires
            self.cells_per_track > 0,
        ensures
            r == cell_index / self.cells_per_track,
    {
        cell_index / self.cells_per_track
    }

    /// Returns the zero-based position of `cell_index` within its track:
    /// the remainder `cell_index % cells_per_track`.
    pub fn cell_in_track(&self, cell_index: usize) -> (r: usize)
        requires
            self.cells_per_track > 0,
        ensures
            r == cell_index % self.cells_per_track,
    {
        cell_index % self.cells_per_track
    }

    /// Returns the number of tracks needed to represent `len` cells.
    pub fn track_count(&self) -> (r: usize)
        requires
            self.cells_per_track > 0,
        ensures
            r == tracks_for(self.len, self.cells_per_track),
    {
        count_tracks(self.len, self.cells_per_track)
    }
}

impl<M: ResizableExtentModel> ExtentModel for GridTrackModel<M> {
    type Scalar = M::Scalar;

    open spec fn wf(&self) -> bool {
        self.cells_per_track > 0 && self.track_model.wf()
    }

    open spec fn len_spec(&self) -> usize {
        self.len
    }

    open spec fn total_spec(&self) -> Self::Scalar {
        self.track_model.total_spec()
    }

    /// The extent of the cell's track; zero in an empty grid.
    open spec fn extent_spec(&self, index: usize) -> Self::Scalar {
        if self.len == 0 {
            M::Scalar::zero_spec()
        } else {
            self.track_model.extent_spec(track_at(self.len, self.cells_per_track, index))
        }
    }

    /// The offset of the cell's track; zero in an empty grid.
    open spec fn offset_spec(&self, index: usize) -> Self::Scalar {
        if self.len == 0 {
            M::Scalar::zero_spec()
        } else {
            self.track_model.offset_spec(track_at(self.len, self.cells_per_track, index))
        }
    }

    /// The first cell of the track that the track model finds.
    open spec fn index_at_spec(&self, offset: Self::Scalar) -> usize {
        if self.len == 0 {
            0
        } else {
            first_cell(self.len, self.cells_per_track, self.track_model.index_at_spec(offset))
        }
    }

    fn len(&self) -> (r: usize) {
        self.len
    }

    fn total_extent(&mut self) -> (r: Self::Scalar) {
        self.track_model.total_extent()
    }

    fn extent_of(&mut self, index: usize) -> (r: Self::Scalar) {
        if self.len == 0 {
            return M::Scalar::zero();
        }
        let clamped = if index < self.len - 1 {
            index
        } else {
            self.len - 1
        };
        let track = self.track_of_cell(clamped);
        self.track_model.extent_of(track)
    }

    fn offset_of(&mut self, index: usize) -> (r: Self::Scalar) {
        if self.len == 0 {
            return M::Scalar::zero();
        }
        let clamped = if index < self.len - 1 {
            index
        } else {
            self.len - 1
        };
        let track = self.track_of_cell(clamped);
        self.track_model.offset_of(track)
    }

    fn index_at_offset(&mut self, offset: Self::Scalar) -> (r: usize) {
        if self.len == 0 {
            return 0;
        }
        let track = self.track_model.index_at_offset(offset);
        match track.checked_mul(self.cells_per_track) {
            Some(cell) => if cell < self.len - 1 {
                cell
            } else {
                self.len - 1
            },
            None => self.len - 1,
        }
    }
}

} // verus!
