//! A small controller that owns an extent model and scroll state.

use crate::virtual_list::model::{
    at_least_zero, compute_visible_strip, is_visible_strip, ExtentModel, VisibleStrip,
};
use crate::virtual_list::scalar::Scalar;
use vstd::prelude::*;

verus! {

/// Alignment mode when scrolling a specific index into view.
#[derive(Debug, Clone, Copy, PartialEq, Eq)]
pub enum ScrollAlign {
    /// Align the start (top/leading edge) of the item with the viewport.
    Start,
    /// Center the item within the viewport.
    Center,
    /// Align the end (bottom/trailing edge) of the item with the viewport.
    End,
    /// Move just enough to make the item fully visible, preferring the
    /// smallest change from the current scroll offset.
    Nearest,
}

/// Controller for a virtualized list/stack over a dense index strip.
///
/// This type stores scroll offset, viewport extent and asymmetric overscan,
/// owns an [`ExtentModel`], caches the last computed [`VisibleStrip`], and
/// offers helpers for visibility queries and index-aligned scrolling.
#[derive(Debug)]
pub struct VirtualList<M: ExtentModel> {
    /// The model of the strip.
    pub model: M,
    /// Start of the viewport in strip coordinates.
    pub scroll_offset: M::Scalar,
    /// Size of the viewport.
    pub viewport_extent: M::Scalar,
    /// Margin realised before the viewport.
    pub overscan_before: M::Scalar,
    /// Margin realised after the viewport.
    pub overscan_after: M::Scalar,
    /// Whether the cached strip may be stale.
    pub dirty: bool,
    /// The strip computed last.
    pub last_strip: VisibleStrip<M::Scalar>,
}

/// Scroll offset that brings an item into view.
///
/// `Start` puts the item's start at the viewport's start. `End` puts its
/// end at the viewport's end. `Center` centres it. `Nearest` keeps the
/// current offset where the item is fully visible, aligns its start where
/// it begins before the viewport, and its end otherwise. Offsets are
/// clamped at zero, but for `Start` and for a kept offset.
pub open spec fn aligned_offset<S: Scalar>(
    align: ScrollAlign,
    item_start: S,
    item_end: S,
    viewport: S,
    current: S,
) -> S {
    match align {
        ScrollAlign::Start => item_start,
        ScrollAlign::End => at_least_zero(item_end.sub_spec(viewport)),
        ScrollAlign::Center => {
            let two = S::from_usize_spec(2);
            at_least_zero(
                item_start.add_spec(item_end).div_spec(two).sub_spec(viewport.div_spec(two)),
            )
        },
        ScrollAlign::Nearest => {
            if current.le_spec(item_start) && item_end.le_spec(current.add_spec(viewport)) {
                current
            } else if item_start.lt_spec(current) {
                item_start
            } else {
                at_least_zero(item_end.sub_spec(viewport))
            }
        },
    }
}

impl<M: ExtentModel> VirtualList<M> {
    /// The controller's invariant: the model's own, and a cached strip that
    /// is either marked stale or the visible strip of the current state.
    pub open spec fn wf(&self) -> bool {
        &&& self.model.wf()
        &&& !self.dirty ==> is_visible_strip(
            &self.model,
            self.scroll_offset,
            self.viewport_extent,
            self.overscan_before,
            self.overscan_after,
            self.last_strip,
        )
    }

    /// The visible strip of the current state.
    pub open spec fn shows(&self, strip: VisibleStrip<M::Scalar>) -> bool {
        is_visible_strip(
            &self.model,
            self.scroll_offset,
            self.viewport_extent,
            self.overscan_before,
            self.overscan_after,
            strip,
        )
    }

    /// Creates a new [`VirtualList`] with the given `model`,
    /// `viewport_extent`, and symmetric `overscan`. Negative extents count
    /// as zero; the scroll offset starts at zero.
    pub fn new(model: M, viewport_extent: M::Scalar, overscan: M::Scalar) -> (r: Self)
        requires
            model.wf(),
        ensures
            r.wf(),
            r.model == model,
            r.scroll_offset == M::Scalar::zero_spec(),
            r.viewport_extent == at_least_zero(viewport_extent),
            r.overscan_before == at_least_zero(overscan),
            r.overscan_after == at_least_zero(overscan),
            r.dirty,
    {
        let zero = M::Scalar::zero();
        Self {
            model,
            scroll_offset: zero,
            viewport_extent: viewport_extent.max(zero),
            overscan_before: overscan.max(zero),
            overscan_after: overscan.max(zero),
            dirty: true,
            last_strip: VisibleStrip {
                start: 0,
                end: 0,
                before_extent: zero,
                after_extent: zero,
                content_extent: zero,
            },
        }
    }

    /// Returns a shared reference to the underlying model.
    pub fn model(&self) -> (r: &M)
        ensures
            *r == self.model,
    {
        &self.model
    }

    /// Returns a mutable reference to the underlying model, marking the
    /// cached strip dirty.
    pub fn model_mut(&mut self) -> (r: &mut M)
        ensures
            *r == old(self).model,
            final(self).model == *final(r),
            final(self).dirty,
            final(self).scroll_offset == old(self).scroll_offset,
            final(self).viewport_extent == old(self).viewport_extent,
            final(self).overscan_before == old(self).overscan_before,
            final(self).overscan_after == old(self).overscan_after,
    {
        self.dirty = true;
        &mut self.model
    }

    /// Returns the current scroll offset.
    pub fn scroll_offset(&self) -> (r: M::Scalar)
        ensures
            r == self.scroll_offset,
    {
        self.scroll_offset
    }

    /// Sets the scroll offset; a negative offset counts as zero. The cached
    /// strip is marked dirty where the offset changes.
    pub fn set_scroll_offset(&mut self, offset: M::Scalar)
        requires
            old(self).wf(),
        ensures
            final(self).wf(),
            final(self).model == old(self).model,
            final(self).viewport_extent == old(self).viewport_extent,
            final(self).overscan_before == old(self).overscan_before,
            final(self).overscan_after == old(self).overscan_after,
            at_least_zero(offset).same_spec(old(self).scroll_offset) ==> *final(self) == *old(self),
            !at_least_zero(offset).same_spec(old(self).scroll_offset) ==> final(self).scroll_offset
                == at_least_zero(offset) && final(self).dirty,
    {
        let offset = offset.max(M::Scalar::zero());
        if !offset.same(self.scroll_offset) {
            self.scroll_offset = offset;
            self.dirty = true;
        }
    }

    /// Adjusts the scroll offset by `delta`.
    pub fn scroll_by(&mut self, delta: M::Scalar)
        requires
            old(self).wf(),
        ensures
            final(self).wf(),
            final(self).model == old(self).model,
            final(self).viewport_extent == old(self).viewport_extent,
            final(self).overscan_before == old(self).overscan_before,
            final(self).overscan_after == old(self).overscan_after,
            ({
                let target = at_least_zero(old(self).scroll_offset.add_spec(delta));
                if target.same_spec(old(self).scroll_offset) {
                    *final(self) == *old(self)
                } else {
                    final(self).scroll_offset == target && final(self).dirty
                }
            }),
    {
        let target = self.scroll_offset.add(delta);
        self.set_scroll_offset(target);
    }

    /// Returns the current viewport extent.
    pub fn viewport_extent(&self) -> (r: M::Scalar)
        ensures
            r == self.viewport_extent,
    {
        self.viewport_extent
    }

    /// Sets the viewport extent; a negative extent counts as zero. The
    /// cached strip is marked dirty where the extent changes.
    pub fn set_viewport_extent(&mut self, extent: M::Scalar)
        requires
            old(self).wf(),
        ensures
            final(self).wf(),
            final(self).model == old(self).model,
            final(self).scroll_offset == old(self).scroll_offset,
            final(self).overscan_before == old(self).overscan_before,
            final(self).overscan_after == old(self).overscan_after,
            at_least_zero(extent).same_spec(old(self).viewport_extent) ==> *final(self) == *old(self),
            !at_least_zero(extent).same_spec(old(self).viewport_extent) ==> final(self).viewport_extent == at_least_zero(extent) && final(self).dirty,
    {
        let extent = extent.max(M::Scalar::zero());
        if !extent.same(self.viewport_extent) {
            self.viewport_extent = extent;
            self.dirty = true;
        }
    }

    /// Sets the overscan extents applied before and after the viewport;
    /// negative extents count as zero. The cached strip is marked dirty
    /// where either changes.
    pub fn set_overscan(&mut self, overscan_before: M::Scalar, overscan_after: M::Scalar)
        requires
            old(self).wf(),
        ensures
            final(self).wf(),
            final(self).model == old(self).model,
            final(self).scroll_offset == old(self).scroll_offset,
            final(self).viewport_extent == old(self).viewport_extent,
            ({
                let before = at_least_zero(overscan_before);
                let after = at_least_zero(overscan_after);
                if before.same_spec(old(self).overscan_before) && after.same_spec(
                    old(self).overscan_after,
                ) {
                    *final(self) == *old(self)
                } else {
                    &&& final(self).overscan_before == before
                    &&& final(self).overscan_after == after
                    &&& final(self).dirty
                }
            }),
    {
        let before = overscan_before.max(M::Scalar::zero());
        let after = overscan_after.max(M::Scalar::zero());
        if !before.same(self.overscan_before) || !after.same(self.overscan_after) {
            self.overscan_before = before;
            self.overscan_after = after;
            self.dirty = true;
        }
    }

    /// Returns the overscan extent applied before the viewport.
    pub fn overscan_before(&self) -> (r: M::Scalar)
        ensures
            r == self.overscan_before,
    {
        self.overscan_before
    }

    /// Returns the overscan extent applied after the viewport.
    pub fn overscan_after(&self) -> (r: M::Scalar)
        ensures
            r == self.overscan_after,
    {
        self.overscan_after
    }

    /// Computes or returns the cached visible strip.
    pub fn visible_strip(&mut self) -> (r: VisibleStrip<M::Scalar>)
        requires
            old(self).wf(),
        ensures
            final(self).wf(),
            !final(self).dirty,
            final(self).last_strip == r,
            final(self).same_settings(old(self)),
            old(self).dirty ==> old(self).shows(r),
            !old(self).dirty ==> r == old(self).last_strip && *final(self) == *old(self),
    {
        if self.dirty {
            self.last_strip =
            compute_visible_strip(
                &mut self.model,
                self.scroll_offset,
                self.viewport_extent,
                self.overscan_before,
                self.overscan_after,
            );
            self.dirty = false;
            proof {
                lemma_strip_respects_same(
                    &old(self).model,
                    &self.model,
                    self.scroll_offset,
                    self.viewport_extent,
                    self.overscan_before,
                    self.overscan_after,
                    self.last_strip,
                );
            }
        }
        self.last_strip
    }

    /// The scroll state is that of `other`, and the model describes the
    /// same strip.
    pub open spec fn same_settings(&self, other: &Self) -> bool {
        &&& crate::virtual_list::model::same_strip(&other.model, &self.model)
        &&& self.scroll_offset == other.scroll_offset
        &&& self.viewport_extent == other.viewport_extent
        &&& self.overscan_before == other.overscan_before
        &&& self.overscan_after == other.overscan_after
    }

    /// The range of visible indices.
    pub fn visible_indices(&mut self) -> (r: core::ops::Range<usize>)
        requires
            old(self).wf(),
        ensures
            final(self).wf(),
            !final(self).dirty,
            final(self).same_settings(old(self)),
            r.start == final(self).last_strip.start,
            r.end == final(self).last_strip.end,
            old(self).dirty ==> old(self).shows(final(self).last_strip),
            !old(self).dirty ==> *final(self) == *old(self),
    {
        let strip = self.visible_strip();
        strip.start..strip.end
    }

    /// Returns the first visible index, if any.
    pub fn first_visible_index(&mut self) -> (r: Option<usize>)
        requires
            old(self).wf(),
        ensures
            final(self).wf(),
            !final(self).dirty,
            final(self).same_settings(old(self)),
            old(self).dirty ==> old(self).shows(final(self).last_strip),
            !old(self).dirty ==> *final(self) == *old(self),
            r == if final(self).last_strip.start == final(self).last_strip.end {
                None
            } else {
                Some(final(self).last_strip.start)
            },
    {
        let strip = self.visible_strip();
        if strip.is_empty() {
            None
        } else {
            Some(strip.start)
        }
    }

    /// Returns the last visible index, if any.
    pub fn last_visible_index(&mut self) -> (r: Option<usize>)
        requires
            old(self).wf(),
        ensures
            final(self).wf(),
            !final(self).dirty,
            final(self).same_settings(old(self)),
            old(self).dirty ==> old(self).shows(final(self).last_strip),
            !old(self).dirty ==> *final(self) == *old(self),
            r == if final(self).last_strip.start == final(self).last_strip.end
                || final(self).last_strip.end == 0 {
                None
            } else {
                Some((final(self).last_strip.end - 1) as usize)
            },
    {
        let strip = self.visible_strip();
        if strip.is_empty() || strip.end == 0 {
            None
        } else {
            Some(strip.end - 1)
        }
    }

    /// Start and end of item `index` along the strip.
    fn item_span(&mut self, index: usize) -> (r: (M::Scalar, M::Scalar))
        requires
            old(self).wf(),
        ensures
            final(self).wf(),
            final(self).same_settings(old(self)),
            final(self).dirty == old(self).dirty,
            final(self).last_strip == old(self).last_strip,
            r.0 == old(self).model.offset_spec(index),
            r.1 == r.0.add_spec(old(self).model.extent_spec(index)),
    {
        let item_start = self.model.offset_of(index);
        let item_end = item_start.add(self.model.extent_of(index));
        proof {
            if !self.dirty {
                lemma_strip_respects_same(
                    &old(self).model,
                    &self.model,
                    self.scroll_offset,
                    self.viewport_extent,
                    self.overscan_before,
                    self.overscan_after,
                    self.last_strip,
                );
            }
        }
        (item_start, item_end)
    }

    /// Returns `true` if the given index is fully visible within the
    /// viewport: it names an item that starts at or after the viewport's
    /// start and ends at or before the viewport's end.
    pub fn is_index_fully_visible(&mut self, index: usize) -> (r: bool)
        requires
            old(self).wf(),
        ensures
            final(self).wf(),
            final(self).same_settings(old(self)),
            r == (index < old(self).model.len_spec() && {
                let start = old(self).model.offset_spec(index);
                let end = start.add_spec(old(self).model.extent_spec(index));
                let view_end = old(self).scroll_offset.add_spec(old(self).viewport_extent);
                old(self).scroll_offset.le_spec(start) && end.le_spec(view_end)
            }),
    {
        let len = self.model.len();
        if index >= len {
            return false;
        }
        let (item_start, item_end) = self.item_span(index);
        let view_start = self.scroll_offset;
        let view_end = self.scroll_offset.add(self.viewport_extent);
        view_start.le(item_start) && item_end.le(view_end)
    }

    /// Returns `true` if the given index overlaps the viewport at all: it
    /// names an item that ends after the viewport's start and starts
    /// before the viewport's end.
    pub fn is_index_partially_visible(&mut self, index: usize) -> (r: bool)
        requires
            old(self).wf(),
        ensures
            final(self).wf(),
            final(self).same_settings(old(self)),
            r == (index < old(self).model.len_spec() && {
                let start = old(self).model.offset_spec(index);
                let end = start.add_spec(old(self).model.extent_spec(index));
                let view_end = old(self).scroll_offset.add_spec(old(self).viewport_extent);
                old(self).scroll_offset.lt_spec(end) && start.lt_spec(view_end)
            }),
    {
        let len = self.model.len();
        if index >= len {
            return false;
        }
        let (item_start, item_end) = self.item_span(index);
        let view_start = self.scroll_offset;
        let view_end = self.scroll_offset.add(self.viewport_extent);
        view_start.lt(item_end) && item_start.lt(view_end)
    }

    /// Clamps the current scroll offset so that the viewport stays within
    /// the content extent: the offset becomes at most the content extent
    /// less the viewport extent, and zero where the content fits.
    pub fn clamp_scroll_to_content(&mut self)
        requires
            old(self).wf(),
        ensures
            final(self).wf(),
            crate::virtual_list::model::same_strip(&old(self).model, &final(self).model),
            final(self).viewport_extent == old(self).viewport_extent,
            final(self).overscan_before == old(self).overscan_before,
            final(self).overscan_after == old(self).overscan_after,
            exists|strip: VisibleStrip<M::Scalar>|
                {
                    &&& if old(self).dirty {
                        old(self).shows(strip)
                    } else {
                        strip == old(self).last_strip
                    }
                    &&& #[trigger] clamped_scroll(
                        strip.content_extent,
                        old(self).viewport_extent,
                        old(self).scroll_offset,
                        final(self).scroll_offset,
                    )
                },
    {
        let strip = self.visible_strip();
        let content = strip.content_extent;
        let max_offset = if self.viewport_extent.lt(content) {
            content.sub(self.viewport_extent)
        } else {
            M::Scalar::zero()
        };
        let clamped = if max_offset.lt(self.scroll_offset) {
            max_offset
        } else {
            self.scroll_offset
        };
        self.set_scroll_offset(clamped);
        assert(clamped_scroll(
            strip.content_extent,
            old(self).viewport_extent,
            old(self).scroll_offset,
            self.scroll_offset,
        ));
    }

    /// Scrolls so that item `index` is brought into view using the given
    /// alignment. An index past the end names the last item; an empty
    /// strip scrolls to zero.
    pub fn scroll_to_index(&mut self, index: usize, align: ScrollAlign)
        requires
            old(self).wf(),
        ensures
            final(self).wf(),
            crate::virtual_list::model::same_strip(&old(self).model, &final(self).model),
            final(self).viewport_extent == old(self).viewport_extent,
            final(self).overscan_before == old(self).overscan_before,
            final(self).overscan_after == old(self).overscan_after,
            moved_to(
                old(self).scroll_offset,
                old(self).target_for(index, align),
                final(self).scroll_offset,
            ),
    {
        let len = self.model.len();
        if len == 0 {
            self.set_scroll_offset(M::Scalar::zero());
            return ;
        }
        let idx = if index < len - 1 {
            index
        } else {
            len - 1
        };
        let (item_start, item_end) = self.item_span(idx);
        let viewport = self.viewport_extent;
        let zero = M::Scalar::zero();

        let new_offset = match align {
            ScrollAlign::Start => item_start,
            ScrollAlign::End => item_end.sub(viewport).max(zero),
            ScrollAlign::Center => {
                let two = M::Scalar::from_usize(2);
                item_start.add(item_end).div(two).sub(viewport.div(two)).max(zero)
            },
            ScrollAlign::Nearest => {
                let current = self.scroll_offset;
                let viewport_end = current.add(viewport);
                // If the item is already fully visible, keep the current offset.
                if current.le(item_start) && item_end.le(viewport_end) {
                    current
                } else if item_start.lt(current) {
                    // Item is above the viewport: align start.
                    item_start
                } else {
                    // Item is below the viewport: align end.
                    item_end.sub(viewport).max(zero)
                }
            },
        };
        self.set_scroll_offset(new_offset);
    }

    /// The offset that [`VirtualList::scroll_to_index`] aims for.
    pub open spec fn target_for(&self, index: usize, align: ScrollAlign) -> M::Scalar {
        if self.model.len_spec() == 0 {
            M::Scalar::zero_spec()
        } else {
            let idx = if index < self.model.len_spec() - 1 {
                index
            } else {
                (self.model.len_spec() - 1) as usize
            };
            let start = self.model.offset_spec(idx);
            let end = start.add_spec(self.model.extent_spec(idx));
            aligned_offset(align, start, end, self.viewport_extent, self.scroll_offset)
        }
    }
}

/// The scroll offset after a request to move from `current` to `target`:
/// the target clamped at zero, or `current` where the two are the same.
pub open spec fn moved_to<S: Scalar>(current: S, target: S, result: S) -> bool {
    if at_least_zero(target).same_spec(current) {
        result == current
    } else {
        result == at_least_zero(target)
    }
}

/// `result` is `current` clamped so that a viewport of extent `viewport`
/// ends within a content of extent `content`.
pub open spec fn clamped_scroll<S: Scalar>(content: S, viewport: S, current: S, result: S) -> bool {
    let max_offset = if viewport.lt_spec(content) {
        content.sub_spec(viewport)
    } else {
        S::zero_spec()
    };
    let clamped = if max_offset.lt_spec(current) {
        max_offset
    } else {
        current
    };
    moved_to(current, clamped, result)
}

/// The visible strip depends only on what the model says of its strip.
pub proof fn lemma_strip_respects_same<M: ExtentModel>(
    a: &M,
    b: &M,
    scroll_offset: M::Scalar,
    viewport_extent: M::Scalar,
    overscan_before: M::Scalar,
    overscan_after: M::Scalar,
    r: VisibleStrip<M::Scalar>,
)
    requires
        crate::virtual_list::model::same_strip(a, b),
    ensures
        is_visible_strip(a, scroll_offset, viewport_extent, overscan_before, overscan_after, r)
            == is_visible_strip(
            b,
            scroll_offset,
            viewport_extent,
            overscan_before,
            overscan_after,
            r,
        ),
{
    assert forall|k: usize| a.offset_spec(k) == b.offset_spec(k) by {}
}

} // verus!
