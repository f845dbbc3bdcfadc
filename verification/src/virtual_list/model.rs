//! Core extent model traits and the visible-range computation.

use crate::virtual_list::scalar::Scalar;
use vstd::prelude::*;

verus! {

/// Result of a visibility query over a 1D strip.
#[derive(Debug, Clone, Copy, PartialEq)]
pub struct VisibleStrip<S: Scalar> {
    /// First visible index (inclusive).
    pub start: usize,
    /// One past the last visible index (exclusive).
    pub end: usize,
    /// Total extent of items before `start`.
    pub before_extent: S,
    /// Total extent of items after `end`.
    pub after_extent: S,
    /// Total extent of the entire strip (all items `0..len`).
    pub content_extent: S,
}

impl<S: Scalar> VisibleStrip<S> {
    /// The strip of nothing: no items and zero extents.
    pub open spec fn none() -> Self {
        VisibleStrip {
            start: 0,
            end: 0,
            before_extent: S::zero_spec(),
            after_extent: S::zero_spec(),
            content_extent: S::zero_spec(),
        }
    }

    /// Returns `true` if there are no visible items.
    pub fn is_empty(&self) -> (r: bool)
        ensures
            r == (self.start == self.end),
    {
        self.start == self.end
    }
}

/// A 1D model over a dense strip of items, indexed `0..len`.
///
/// All extents and offsets are in the same coordinate space as the scroll
/// offset and the viewport extent. Methods that consult prefix sums take
/// `&mut self` so that implementations may keep caches; what they may not
/// change is the strip itself, as the specification functions describe it.
pub trait ExtentModel: Sized {
    /// Scalar type used for extents and offsets.
    type Scalar: Scalar;

    /// The model's invariant.
    spec fn wf(&self) -> bool;

    /// Result of [`ExtentModel::len`].
    spec fn len_spec(&self) -> usize;

    /// Result of [`ExtentModel::total_extent`].
    spec fn total_spec(&self) -> Self::Scalar;

    /// Result of [`ExtentModel::extent_of`].
    spec fn extent_spec(&self, index: usize) -> Self::Scalar;

    /// Result of [`ExtentModel::offset_of`].
    spec fn offset_spec(&self, index: usize) -> Self::Scalar;

    /// Result of [`ExtentModel::index_at_offset`].
    spec fn index_at_spec(&self, offset: Self::Scalar) -> usize;

    /// Number of items in this strip.
    fn len(&self) -> (r: usize)
        requires
            self.wf(),
        ensures
            r == self.len_spec(),
    ;

    /// Returns `true` if there are no items in this strip.
    fn is_empty(&self) -> (r: bool)
        requires
            self.wf(),
        ensures
            r == (self.len_spec() == 0),
    {
        self.len() == 0
    }

    /// Total extent of the entire strip.
    fn total_extent(&mut self) -> (r: Self::Scalar)
        requires
            old(self).wf(),
        ensures
            final(self).wf(),
            final(self).len_spec() == old(self).len_spec(),
            final(self).total_spec() == old(self).total_spec(),
            forall|i: usize| #[trigger] final(self).extent_spec(i) == old(self).extent_spec(i),
            forall|i: usize| #[trigger] final(self).offset_spec(i) == old(self).offset_spec(i),
            forall|o: Self::Scalar|
                #[trigger] final(self).index_at_spec(o) == old(self).index_at_spec(o),
            r == old(self).total_spec(),
    ;

    /// Size of a single item.
    fn extent_of(&mut self, index: usize) -> (r: Self::Scalar)
        requires
            old(self).wf(),
        ensures
            final(self).wf(),
            final(self).len_spec() == old(self).len_spec(),
            final(self).total_spec() == old(self).total_spec(),
            forall|i: usize| #[trigger] final(self).extent_spec(i) == old(self).extent_spec(i),
            forall|i: usize| #[trigger] final(self).offset_spec(i) == old(self).offset_spec(i),
            forall|o: Self::Scalar|
                #[trigger] final(self).index_at_spec(o) == old(self).index_at_spec(o),
            r == old(self).extent_spec(index),
    ;

    /// Offset of the start of the given item from the start of the strip.
    fn offset_of(&mut self, index: usize) -> (r: Self::Scalar)
        requires
            old(self).wf(),
        ensures
            final(self).wf(),
            final(self).len_spec() == old(self).len_spec(),
            final(self).total_spec() == old(self).total_spec(),
            forall|i: usize| #[trigger] final(self).extent_spec(i) == old(self).extent_spec(i),
            forall|i: usize| #[trigger] final(self).offset_spec(i) == old(self).offset_spec(i),
            forall|o: Self::Scalar|
                #[trigger] final(self).index_at_spec(o) == old(self).index_at_spec(o),
            r == old(self).offset_spec(index),
    ;

    /// Given a scroll offset, find the index of an item that starts at or
    /// before that offset.
    fn index_at_offset(&mut self, offset: Self::Scalar) -> (r: usize)
        requires
            old(self).wf(),
        ensures
            final(self).wf(),
            final(self).len_spec() == old(self).len_spec(),
            final(self).total_spec() == old(self).total_spec(),
            forall|i: usize| #[trigger] final(self).extent_spec(i) == old(self).extent_spec(i),
            forall|i: usize| #[trigger] final(self).offset_spec(i) == old(self).offset_spec(i),
            forall|o: Self::Scalar|
                #[trigger] final(self).index_at_spec(o) == old(self).index_at_spec(o),
            r == old(self).index_at_spec(offset),
    ;
}

/// Two models describe the same strip: they agree in length, in total
/// extent, and in every extent, offset and index lookup.
pub open spec fn same_strip<M: ExtentModel>(a: &M, b: &M) -> bool {
    &&& a.len_spec() == b.len_spec()
    &&& a.total_spec() == b.total_spec()
    &&& forall|i: usize| #[trigger] a.extent_spec(i) == b.extent_spec(i)
    &&& forall|i: usize| #[trigger] a.offset_spec(i) == b.offset_spec(i)
    &&& forall|o: M::Scalar| #[trigger] a.index_at_spec(o) == b.index_at_spec(o)
}

/// The items that both strips have are the same in both: each has the
/// same extent and the same offset in `after` as in `before`.
pub open spec fn items_kept<M: ExtentModel>(before: &M, after: &M) -> bool {
    &&& forall|i: usize|
        i < before.len_spec() && i < after.len_spec() ==> #[trigger] after.extent_spec(i)
            == before.extent_spec(i)
    &&& forall|i: usize|
        i < before.len_spec() && i < after.len_spec() ==> #[trigger] after.offset_spec(i)
            == before.offset_spec(i)
}

/// An [`ExtentModel`] whose logical length can be resized.
pub trait ResizableExtentModel: ExtentModel {
    /// Ensures that the model can represent `len` items. The items that
    /// the strip has both before and after keep their extents and their
    /// offsets.
    fn set_len(&mut self, len: usize)
        requires
            old(self).wf(),
        ensures
            final(self).wf(),
            final(self).len_spec() == len,
            forall|i: usize|
                i < len && i < old(self).len_spec() ==> #[trigger] final(self).extent_spec(i)
                    == old(self).extent_spec(i),
            forall|i: usize|
                i < len && i < old(self).len_spec() ==> #[trigger] final(self).offset_spec(i)
                    == old(self).offset_spec(i),
    ;
}

/// `v` where it is not below zero, else zero.
pub open spec fn at_least_zero<S: Scalar>(v: S) -> S {
    v.max_spec(S::zero_spec())
}

/// Start of the realised window: the scroll offset less the overscan
/// before it, each clamped at zero.
pub open spec fn window_min<S: Scalar>(scroll_offset: S, overscan_before: S) -> S {
    at_least_zero(at_least_zero(scroll_offset).sub_spec(at_least_zero(overscan_before)))
}

/// End of the realised window: scroll offset plus viewport plus the
/// overscan after it, capped at the content extent.
pub open spec fn window_max<S: Scalar>(
    scroll_offset: S,
    viewport_extent: S,
    overscan_after: S,
    content: S,
) -> S {
    at_least_zero(scroll_offset).add_spec(at_least_zero(viewport_extent)).add_spec(
        at_least_zero(overscan_after),
    ).min_spec(content)
}

/// `s` is the first index at or below `from`, walking down, that is zero
/// or whose item does not start after `min`.
pub open spec fn is_first_at<M: ExtentModel>(m: &M, from: usize, min: M::Scalar, s: usize) -> bool {
    &&& s <= from
    &&& s == 0 || !min.lt_spec(m.offset_spec(s))
    &&& forall|k: usize| s < k <= from ==> min.lt_spec(#[trigger] m.offset_spec(k))
}

/// `e` is the first index at or above `start`, walking up, that is the
/// length or whose item does not start before `max`.
pub open spec fn is_end_at<M: ExtentModel>(m: &M, start: usize, max: M::Scalar, e: usize) -> bool {
    &&& start <= e <= m.len_spec()
    &&& e == m.len_spec() || !m.offset_spec(e).lt_spec(max)
    &&& forall|k: usize| start <= k < e ==> (#[trigger] m.offset_spec(k)).lt_spec(max)
}

/// What [`compute_visible_strip`] returns for a model and a viewport.
///
/// An empty model, or one whose total extent clamps to zero, gives the
/// strip of nothing. A window that is empty gives no items, with the
/// window's start as the extent before. Otherwise the items are those from
/// the last one starting at or before the window's start up to the first
/// one starting at or after its end.
pub open spec fn is_visible_strip<M: ExtentModel>(
    m: &M,
    scroll_offset: M::Scalar,
    viewport_extent: M::Scalar,
    overscan_before: M::Scalar,
    overscan_after: M::Scalar,
    r: VisibleStrip<M::Scalar>,
) -> bool {
    let zero = M::Scalar::zero_spec();
    let content = at_least_zero(m.total_spec());
    let min = window_min(scroll_offset, overscan_before);
    let max = window_max(scroll_offset, viewport_extent, overscan_after, content);
    if m.len_spec() == 0 || content.same_spec(zero) {
        r == VisibleStrip::<M::Scalar>::none()
    } else if max.le_spec(min) {
        r == (VisibleStrip {
            start: 0,
            end: 0,
            before_extent: min,
            after_extent: at_least_zero(content.sub_spec(min)),
            content_extent: content,
        })
    } else {
        let from = if m.index_at_spec(min) < m.len_spec() - 1 {
            m.index_at_spec(min)
        } else {
            (m.len_spec() - 1) as usize
        };
        let total = m.total_spec().max_spec(content);
        let end_start = if r.end < m.len_spec() {
            m.offset_spec(r.end)
        } else {
            total
        };
        &&& is_first_at(m, from, min, r.start)
        &&& is_end_at(m, r.start, max, r.end)
        &&& r.before_extent == m.offset_spec(r.start)
        &&& r.content_extent == total
        &&& r.after_extent == at_least_zero(total.sub_spec(end_start))
    }
}

/// Compute the visible slice of a strip, given scroll position, viewport
/// size, and overscan.
///
/// - `scroll_offset`: top of the viewport in strip coordinates.
/// - `viewport_extent`: size of the viewport in strip coordinates.
/// - `overscan_before`: extra margin before the viewport.
/// - `overscan_after`: extra margin after the viewport.
///
/// Negative arguments count as zero. The returned [`VisibleStrip`] says
/// which indices to materialise, how much extent lies before and after
/// them, and the total content extent.
pub fn compute_visible_strip<M: ExtentModel>(
    model: &mut M,
    scroll_offset: M::Scalar,
    viewport_extent: M::Scalar,
    overscan_before: M::Scalar,
    overscan_after: M::Scalar,
) -> (r: VisibleStrip<M::Scalar>)
    requires
        old(model).wf(),
    ensures
        final(model).wf(),
        same_strip(old(model), final(model)),
        is_visible_strip(
            old(model),
            scroll_offset,
            viewport_extent,
            overscan_before,
            overscan_after,
            r,
        ),
{
    let ghost m0 = *old(model);
    let zero = M::Scalar::zero();
    let len = model.len();
    if len == 0 {
        return VisibleStrip {
            start: 0,
            end: 0,
            before_extent: zero,
            after_extent: zero,
            content_extent: zero,
        };
    }
    let mut content_extent = model.total_extent().max(zero);
    if content_extent.same(zero) {
        // All items collapsed; treat as empty strip.
        return VisibleStrip {
            start: 0,
            end: 0,
            before_extent: zero,
            after_extent: zero,
            content_extent: zero,
        };
    }
    let scroll_offset = scroll_offset.max(zero);
    let viewport_extent = viewport_extent.max(zero);
    let overscan_before = overscan_before.max(zero);
    let overscan_after = overscan_after.max(zero);

    let min = scroll_offset.sub(overscan_before).max(zero);
    let max = scroll_offset.add(viewport_extent).add(overscan_after).min(content_extent);

    if max.le(min) {
        // Very small viewport / overscan, or near-zero content.
        return VisibleStrip {
            start: 0,
            end: 0,
            before_extent: min,
            after_extent: content_extent.sub(min).max(zero),
            content_extent,
        };
    }
    // Start from the item whose start is at or before `min`.
    let idx = model.index_at_offset(min);
    let from = if idx < len - 1 {
        idx
    } else {
        len - 1
    };
    let mut start = from;

    // Walk backwards to make sure the item at `start` actually starts at or
    // before `min`.
    loop
        invariant
            model.wf(),
            same_strip(&m0, model),
            start <= from,
            forall|k: usize| start < k <= from ==> min.lt_spec(#[trigger] m0.offset_spec(k)),
        ensures
            is_first_at(&m0, from, min, start),
        decreases start,
    {
        if start == 0 {
            break ;
        }
        let off = model.offset_of(start);
        if !min.lt(off) {
            break ;
        }
        start -= 1;
    }

    // Walk forwards until we pass `max`.
    let mut end = start;
    loop
        invariant
            model.wf(),
            same_strip(&m0, model),
            len == m0.len_spec(),
            start <= end <= len,
            forall|k: usize| start <= k < end ==> (#[trigger] m0.offset_spec(k)).lt_spec(max),
        ensures
            is_end_at(&m0, start, max, end),
        decreases len - end,
    {
        if end >= len {
            break ;
        }
        let off = model.offset_of(end);
        if !off.lt(max) {
            break ;
        }
        end += 1;
    }

    let before_extent = model.offset_of(start);
    content_extent = model.total_extent().max(content_extent);

    let end_start = if end < len {
        model.offset_of(end)
    } else {
        content_extent
    };
    let after_extent = content_extent.sub(end_start).max(zero);

    VisibleStrip { start, end, before_extent, after_extent, content_extent }
}

} // verus!
