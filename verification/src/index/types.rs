//! Primitive geometry: the axis-aligned box and the scalar abstraction.

use vstd::prelude::*;
use vstd::std_specs::cmp::PartialOrdIs;
use vstd::std_specs::cmp::PartialEqSpec;
use vstd::std_specs::cmp::PartialOrdSpec;

verus! {

/// Axis-aligned bounding box in 2D.
#[derive(Copy, Clone, Debug, PartialEq, Eq)]
pub struct Aabb2D<T> {
    /// Minimum x (left).
    pub min_x: T,
    /// Minimum y (top).
    pub min_y: T,
    /// Maximum x (right).
    pub max_x: T,
    /// Maximum y (bottom).
    pub max_y: T,
}

/// Whether the comparison operators of `T` return what their specification
/// says. It holds of the integer types; contracts that speak of order are
/// conditional on it.
pub open spec fn ordered<T: PartialOrd>() -> bool {
    T::obeys_partial_cmp_spec()
}

/// Whether `==` on `T` returns what its specification says. It holds of the
/// integer types.
pub open spec fn equatable<T: PartialEq>() -> bool {
    T::obeys_eq_spec()
}

/// The smaller of two values: `b` where `a` compares greater, else `a`.
pub open spec fn min_of<T: PartialOrd>(a: T, b: T) -> T {
    if a.is_gt(&b) {
        b
    } else {
        a
    }
}

/// The larger of two values: `b` where `a` compares less, else `a`.
pub open spec fn max_of<T: PartialOrd>(a: T, b: T) -> T {
    if a.is_lt(&b) {
        b
    } else {
        a
    }
}

/// Minimum under `PartialOrd`; incomparable pairs yield `a`.
pub fn min_t<T: PartialOrd + Copy>(a: T, b: T) -> (r: T)
    ensures
        ordered::<T>() ==> r == min_of(a, b),
        r == a || r == b,
{
    if a > b {
        b
    } else {
        a
    }
}

/// Maximum under `PartialOrd`; incomparable pairs yield `a`.
pub fn max_t<T: PartialOrd + Copy>(a: T, b: T) -> (r: T)
    ensures
        ordered::<T>() ==> r == max_of(a, b),
        r == a || r == b,
{
    if a < b {
        b
    } else {
        a
    }
}

impl<T> Aabb2D<T> {
    /// Create a new AABB from min/max corners.
    pub fn new(min_x: T, min_y: T, max_x: T, max_y: T) -> (r: Self)
        ensures
            r == (Aabb2D { min_x, min_y, max_x, max_y }),
    {
        Self { min_x, min_y, max_x, max_y }
    }
}

impl<T: Copy + PartialOrd> Aabb2D<T> {
    /// Whether the point lies inside the box, edges included.
    pub open spec fn contains(self, x: T, y: T) -> bool {
        &&& self.min_x.is_le(&x)
        &&& self.min_y.is_le(&y)
        &&& x.is_le(&self.max_x)
        &&& y.is_le(&self.max_y)
    }

    /// Whether two boxes share at least one point, edges included.
    pub open spec fn touches(self, other: Self) -> bool {
        &&& self.min_x.is_le(&other.max_x)
        &&& self.max_x.is_ge(&other.min_x)
        &&& self.min_y.is_le(&other.max_y)
        &&& self.max_y.is_ge(&other.min_y)
    }

    /// Coordinate-wise clamp of two boxes to their common part.
    pub open spec fn meet(self, other: Self) -> Self {
        Aabb2D {
            min_x: max_of(self.min_x, other.min_x),
            min_y: max_of(self.min_y, other.min_y),
            max_x: min_of(self.max_x, other.max_x),
            max_y: min_of(self.max_y, other.max_y),
        }
    }

    /// The smallest box enclosing both boxes.
    pub open spec fn join(self, other: Self) -> Self {
        Aabb2D {
            min_x: min_of(self.min_x, other.min_x),
            min_y: min_of(self.min_y, other.min_y),
            max_x: max_of(self.max_x, other.max_x),
            max_y: max_of(self.max_y, other.max_y),
        }
    }

    /// A box is degenerate when its maximum does not exceed its minimum on
    /// either axis.
    pub open spec fn degenerate(self) -> bool {
        self.max_x.is_le(&self.min_x) || self.max_y.is_le(&self.min_y)
    }

    /// Whether two boxes agree in all four coordinates under `==`.
    pub open spec fn same(self, other: Self) -> bool {
        &&& self.min_x.eq_spec(&other.min_x)
        &&& self.min_y.eq_spec(&other.min_y)
        &&& self.max_x.eq_spec(&other.max_x)
        &&& self.max_y.eq_spec(&other.max_y)
    }

    /// Compare two boxes coordinate by coordinate.
    pub fn equals(&self, other: &Self) -> (r: bool)
        ensures
            equatable::<T>() ==> r == self.same(*other),
    {
        self.min_x == other.min_x && self.min_y == other.min_y && self.max_x == other.max_x
            && self.max_y == other.max_y
    }

    /// Whether this AABB contains the point.
    pub fn contains_point(&self, x: T, y: T) -> (r: bool)
        ensures
            ordered::<T>() ==> r == self.contains(x, y),
    {
        self.min_x <= x && self.min_y <= y && x <= self.max_x && y <= self.max_y
    }

    /// The intersection of two AABBs.
    pub fn intersect(&self, other: &Self) -> (r: Self)
        ensures
            ordered::<T>() ==> r == self.meet(*other),
    {
        let min_x = max_t(self.min_x, other.min_x);
        let min_y = max_t(self.min_y, other.min_y);
        let max_x = min_t(self.max_x, other.max_x);
        let max_y = min_t(self.max_y, other.max_y);
        Self { min_x, min_y, max_x, max_y }
    }

    /// Whether this AABB overlaps another. Edges belong to a box, so two
    /// boxes that share an edge overlap.
    pub fn overlaps(&self, other: &Self) -> (r: bool)
        ensures
            ordered::<T>() ==> r == self.touches(*other),
    {
        self.min_x <= other.max_x && self.max_x >= other.min_x && self.min_y <= other.max_y
            && self.max_y >= other.min_y
    }

    /// The smallest AABB enclosing two AABBs.
    pub fn union(&self, other: Self) -> (r: Self)
        ensures
            ordered::<T>() ==> r == self.join(other),
    {
        Self {
            min_x: min_t(self.min_x, other.min_x),
            min_y: min_t(self.min_y, other.min_y),
            max_x: max_t(self.max_x, other.max_x),
            max_y: max_t(self.max_y, other.max_y),
        }
    }

    /// Return true if the AABB is empty or inverted (no area).
    pub fn is_empty(&self) -> (r: bool)
        ensures
            ordered::<T>() ==> r == self.degenerate(),
    {
        self.max_x <= self.min_x || self.max_y <= self.min_y
    }
}

impl<T: Scalar> Aabb2D<T> {
    /// The box with origin `(x, y)` and size `(w, h)`.
    pub open spec fn of_xywh(x: T, y: T, w: T, h: T) -> Self {
        Aabb2D { min_x: x, min_y: y, max_x: T::add_spec(x, w), max_y: T::add_spec(y, h) }
    }

    /// Width times height in the accumulator type, each side clamped at zero.
    pub open spec fn area_spec(self) -> T::Acc {
        let w = T::max_spec(T::sub_spec(self.max_x, self.min_x), T::zero_spec());
        let h = T::max_spec(T::sub_spec(self.max_y, self.min_y), T::zero_spec());
        T::acc_mul_spec(T::widen_spec(w), T::widen_spec(h))
    }

    /// Create an AABB from origin and size.
    pub fn from_xywh(x: T, y: T, w: T, h: T) -> (r: Self)
        ensures
            r == Self::of_xywh(x, y, w, h),
    {
        Self { min_x: x, min_y: y, max_x: T::add(x, w), max_y: T::add(y, h) }
    }

    /// Compute the area of an AABB using the scalar's widened accumulator
    /// type. Inverted boxes have zero width or height.
    pub fn area(&self) -> (r: T::Acc)
        ensures
            r == self.area_spec(),
    {
        let w = T::max(T::sub(self.max_x, self.min_x), T::zero());
        let h = T::max(T::sub(self.max_y, self.min_y), T::zero());
        T::acc_mul(T::widen(w), T::widen(h))
    }
}

/// Numeric scalar abstraction for 2D AABBs used by backends.
///
/// Each operation has a specification function that fixes its result, so
/// that code generic over the scalar can be reasoned about exactly. The
/// accumulator `Acc` is a widened type for area and cost computations.
pub trait Scalar: Copy + PartialOrd {
    /// Widened accumulator type suitable for area/cost computations.
    type Acc: Copy;

    /// Result of [`Scalar::add`].
    spec fn add_spec(a: Self, b: Self) -> Self;

    /// Result of [`Scalar::sub`].
    spec fn sub_spec(a: Self, b: Self) -> Self;

    /// Result of [`Scalar::zero`].
    spec fn zero_spec() -> Self;

    /// Result of [`Scalar::max`].
    spec fn max_spec(a: Self, b: Self) -> Self;

    /// Result of [`Scalar::min`].
    spec fn min_spec(a: Self, b: Self) -> Self;

    /// Result of [`Scalar::mid`].
    spec fn mid_spec(a: Self, b: Self) -> Self;

    /// Result of [`Scalar::widen`].
    spec fn widen_spec(v: Self) -> Self::Acc;

    /// Result of [`Scalar::acc_from_usize`].
    spec fn acc_from_usize_spec(n: usize) -> Self::Acc;

    /// Result of [`Scalar::acc_add`].
    spec fn acc_add_spec(a: Self::Acc, b: Self::Acc) -> Self::Acc;

    /// Result of [`Scalar::acc_mul`].
    spec fn acc_mul_spec(a: Self::Acc, b: Self::Acc) -> Self::Acc;

    /// Result of [`Scalar::acc_lt`].
    spec fn acc_lt_spec(a: Self::Acc, b: Self::Acc) -> bool;

    /// The order of the scalars is total: `<=` is reflexive and
    /// transitive, any two values compare one way or the other, and the
    /// other comparisons are what `<=` makes them.
    proof fn lemma_order(a: Self, b: Self, c: Self)
        requires
            ordered::<Self>(),
        ensures
            a.is_le(&a),
            a.is_le(&b) && b.is_le(&c) ==> a.is_le(&c),
            a.is_le(&b) || b.is_le(&a),
            a.is_ge(&b) <==> b.is_le(&a),
            a.is_lt(&b) <==> !b.is_le(&a),
            a.is_gt(&b) <==> !a.is_le(&b),
    ;

    /// The order of the accumulators is a strict weak order: less-than is
    /// irreflexive and transitive, and so is its complement.
    proof fn lemma_acc_order(a: Self::Acc, b: Self::Acc, c: Self::Acc)
        ensures
            !Self::acc_lt_spec(a, a),
            Self::acc_lt_spec(a, b) && Self::acc_lt_spec(b, c) ==> Self::acc_lt_spec(a, c),
            !Self::acc_lt_spec(a, b) && !Self::acc_lt_spec(b, c) ==> !Self::acc_lt_spec(a, c),
    ;

    /// Add two scalar values.
    fn add(a: Self, b: Self) -> (r: Self)
        ensures
            r == Self::add_spec(a, b),
    ;

    /// Subtract two scalar values: `a - b`.
    fn sub(a: Self, b: Self) -> (r: Self)
        ensures
            r == Self::sub_spec(a, b),
    ;

    /// Zero value for the scalar type.
    fn zero() -> (r: Self)
        ensures
            r == Self::zero_spec(),
    ;

    /// Max of the two scalar values.
    fn max(a: Self, b: Self) -> (r: Self)
        ensures
            r == Self::max_spec(a, b),
    ;

    /// Min of the two scalar values.
    fn min(a: Self, b: Self) -> (r: Self)
        ensures
            r == Self::min_spec(a, b),
    ;

    /// Midpoint between `a` and `b` (used for centroid ordering).
    fn mid(a: Self, b: Self) -> (r: Self)
        ensures
            r == Self::mid_spec(a, b),
    ;

    /// Convert a scalar to the accumulator type.
    fn widen(v: Self) -> (r: Self::Acc)
        ensures
            r == Self::widen_spec(v),
    ;

    /// Convert a `usize` to the accumulator type (for cost weighting).
    fn acc_from_usize(n: usize) -> (r: Self::Acc)
        ensures
            r == Self::acc_from_usize_spec(n),
    ;

    /// Sum of two accumulator values.
    fn acc_add(a: Self::Acc, b: Self::Acc) -> (r: Self::Acc)
        ensures
            r == Self::acc_add_spec(a, b),
    ;

    /// Product of two accumulator values.
    fn acc_mul(a: Self::Acc, b: Self::Acc) -> (r: Self::Acc)
        ensures
            r == Self::acc_mul_spec(a, b),
    ;

    /// Whether accumulator `a` is strictly below `b`.
    fn acc_lt(a: Self::Acc, b: Self::Acc) -> (r: bool)
        ensures
            r == Self::acc_lt_spec(a, b),
    ;
}

} // verus!
