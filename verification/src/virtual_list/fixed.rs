//! A simple extent model with uniform per-item extent.

use crate::virtual_list::model::{ExtentModel, ResizableExtentModel};
use crate::virtual_list::scalar::Scalar;
use vstd::prelude::*;

verus! {

/// An [`ExtentModel`] where all items share the same extent.
#[derive(Debug, Clone, Copy)]
pub struct FixedExtentModel<S: Scalar> {
    /// Number of items.
    pub len: usize,
    /// Extent of every item; never of negative sign when set through the
    /// model's functions.
    pub extent: S,
}

/// `extent` where its sign is not negative, else zero.
pub open spec fn non_negative<S: Scalar>(extent: S) -> S {
    if extent.negative_spec() {
        S::zero_spec()
    } else {
        extent
    }
}

/// The index that a floor `i` names in a strip of `len > 0` items: zero
/// for a negative floor, and at most the last index.
pub open spec fn clamp_index(i: isize, len: usize) -> usize {
    if i < 0 {
        0
    } else if i >= len {
        (len - 1) as usize
    } else {
        i as usize
    }
}

impl<S: Scalar> FixedExtentModel<S> {
    /// Creates a new model with `len` items of uniform `extent`. A negative
    /// extent counts as zero.
    pub fn new(len: usize, extent: S) -> (r: Self)
        ensures
            r == (FixedExtentModel { len, extent: non_negative(extent) }),
    {
        Self { len, extent: clamp_negative(extent) }
    }

    /// Sets the number of items in the strip.
    pub fn set_len(&mut self, len: usize)
        ensures
            *final(self) == (FixedExtentModel { len, extent: old(self).extent }),
    {
        self.len = len;
    }

    /// Sets the uniform extent for all items. A negative extent counts as
    /// zero.
    pub fn set_extent(&mut self, extent: S)
        ensures
            *final(self) == (FixedExtentModel { len: old(self).len, extent: non_negative(extent) }),
    {
        self.extent = clamp_negative(extent);
    }

    /// Returns the uniform extent for all items.
    pub fn extent(&self) -> (r: S)
        ensures
            r == self.extent,
    {
        self.extent
    }
}

/// Clamp a negative extent to zero.
pub fn clamp_negative<S: Scalar>(extent: S) -> (r: S)
    ensures
        r == non_negative(extent),
{
    if extent.is_sign_negative() {
        S::zero()
    } else {
        extent
    }
}

impl<S: Scalar> ExtentModel for FixedExtentModel<S> {
    type Scalar = S;

    open spec fn wf(&self) -> bool {
        true
    }

    open spec fn len_spec(&self) -> usize {
        self.len
    }

    /// The extent times the number of items.
    open spec fn total_spec(&self) -> S {
        self.extent.mul_spec(S::from_usize_spec(self.len))
    }

    open spec fn extent_spec(&self, index: usize) -> S {
        self.extent
    }

    /// The index times the extent.
    open spec fn offset_spec(&self, index: usize) -> S {
        S::from_usize_spec(index).mul_spec(self.extent)
    }

    /// The floor of `offset / extent`, clamped into the strip; zero for an
    /// empty strip or an extent that is not above zero.
    open spec fn index_at_spec(&self, offset: S) -> usize {
        if self.len == 0 || self.extent.le_spec(S::zero_spec()) {
            0
        } else {
            clamp_index(offset.div_spec(self.extent).floor_spec(), self.len)
        }
    }

    fn len(&self) -> (r: usize) {
        self.len
    }

    fn total_extent(&mut self) -> (r: S) {
        self.extent.mul(S::from_usize(self.len))
    }

    fn extent_of(&mut self, _index: usize) -> (r: S) {
        self.extent
    }

    fn offset_of(&mut self, index: usize) -> (r: S) {
        S::from_usize(index).mul(self.extent)
    }

    fn index_at_offset(&mut self, offset: S) -> (r: usize) {
        if self.len == 0 || self.extent.le(S::zero()) {
            return 0;
        }
        let ratio = offset.div(self.extent);
        let i = ratio.floor_to_isize();
        if i < 0 {
            0
        } else if i as usize >= self.len {
            self.len - 1
        } else {
            i as usize
        }
    }
}

impl<S: Scalar> ResizableExtentModel for FixedExtentModel<S> {
    fn set_len(&mut self, len: usize) {
        self.len = len;
    }
}

} // verus!
