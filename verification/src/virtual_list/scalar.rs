//! The scalar abstraction used for extents, offsets and scroll positions.

use crate::index::scalar_i64::clamp_i64;
use vstd::prelude::*;

verus! {

/// A number type for extents and offsets along the scroll axis.
///
/// Each operation has a specification function that fixes its result, so
/// that models and the list controller can state exactly what they compute
/// for any scalar. Implementations for inexact number types define these
/// functions by their own rounding.
pub trait Scalar: Copy {
    /// Result of [`Scalar::zero`].
    spec fn zero_spec() -> Self;

    /// Result of [`Scalar::from_usize`].
    spec fn from_usize_spec(n: usize) -> Self;

    /// Result of [`Scalar::add`].
    spec fn add_spec(self, rhs: Self) -> Self;

    /// Result of [`Scalar::sub`].
    spec fn sub_spec(self, rhs: Self) -> Self;

    /// Result of [`Scalar::mul`].
    spec fn mul_spec(self, rhs: Self) -> Self;

    /// Result of [`Scalar::div`].
    spec fn div_spec(self, rhs: Self) -> Self;

    /// Result of [`Scalar::lt`].
    spec fn lt_spec(self, rhs: Self) -> bool;

    /// Result of [`Scalar::le`].
    spec fn le_spec(self, rhs: Self) -> bool;

    /// Result of [`Scalar::same`].
    spec fn same_spec(self, rhs: Self) -> bool;

    /// Result of [`Scalar::max`].
    spec fn max_spec(self, rhs: Self) -> Self;

    /// Result of [`Scalar::min`].
    spec fn min_spec(self, rhs: Self) -> Self;

    /// Result of [`Scalar::is_sign_negative`].
    spec fn negative_spec(self) -> bool;

    /// Result of [`Scalar::is_finite`].
    spec fn finite_spec(self) -> bool;

    /// Result of [`Scalar::floor_to_isize`].
    spec fn floor_spec(self) -> isize;

    /// The additive identity.
    fn zero() -> (r: Self)
        ensures
            r == Self::zero_spec(),
    ;

    /// Convert a count to a scalar.
    fn from_usize(n: usize) -> (r: Self)
        ensures
            r == Self::from_usize_spec(n),
    ;

    /// `self + rhs`.
    fn add(self, rhs: Self) -> (r: Self)
        ensures
            r == self.add_spec(rhs),
    ;

    /// `self - rhs`.
    fn sub(self, rhs: Self) -> (r: Self)
        ensures
            r == self.sub_spec(rhs),
    ;

    /// `self * rhs`.
    fn mul(self, rhs: Self) -> (r: Self)
        ensures
            r == self.mul_spec(rhs),
    ;

    /// `self / rhs`.
    fn div(self, rhs: Self) -> (r: Self)
        ensures
            r == self.div_spec(rhs),
    ;

    /// `self < rhs`.
    fn lt(self, rhs: Self) -> (r: bool)
        ensures
            r == self.lt_spec(rhs),
    ;

    /// `self <= rhs`.
    fn le(self, rhs: Self) -> (r: bool)
        ensures
            r == self.le_spec(rhs),
    ;

    /// `self == rhs`.
    fn same(self, rhs: Self) -> (r: bool)
        ensures
            r == self.same_spec(rhs),
    ;

    /// The larger of the two.
    fn max(self, rhs: Self) -> (r: Self)
        ensures
            r == self.max_spec(rhs),
    ;

    /// The smaller of the two.
    fn min(self, rhs: Self) -> (r: Self)
        ensures
            r == self.min_spec(rhs),
    ;

    /// Whether the sign is negative.
    fn is_sign_negative(self) -> (r: bool)
        ensures
            r == self.negative_spec(),
    ;

    /// Whether the value is a finite number.
    fn is_finite(self) -> (r: bool)
        ensures
            r == self.finite_spec(),
    ;

    /// The largest integer not above the value, saturated to `isize`.
    fn floor_to_isize(self) -> (r: isize)
        ensures
            r == self.floor_spec(),
    ;
}

/// `v` clamped into the range of `isize`.
pub open spec fn clamp_isize(v: int) -> isize {
    if v > isize::MAX {
        isize::MAX
    } else if v < isize::MIN {
        isize::MIN
    } else {
        v as isize
    }
}

/// Quotient of `a` by a non-zero `b`, rounded toward negative infinity.
pub open spec fn floor_div(a: int, b: int) -> int {
    if b > 0 {
        a / b
    } else {
        (-a) / (-b)
    }
}

/// Whole units: every operation saturates at the ends of `i64`, division
/// rounds toward negative infinity, and division by zero gives zero.
impl Scalar for i64 {
    open spec fn zero_spec() -> Self {
        0
    }

    open spec fn from_usize_spec(n: usize) -> Self {
        clamp_i64(n as int)
    }

    open spec fn add_spec(self, rhs: Self) -> Self {
        clamp_i64(self + rhs)
    }

    open spec fn sub_spec(self, rhs: Self) -> Self {
        clamp_i64(self - rhs)
    }

    open spec fn mul_spec(self, rhs: Self) -> Self {
        clamp_i64(self * rhs)
    }

    open spec fn div_spec(self, rhs: Self) -> Self {
        if rhs == 0 {
            0
        } else {
            clamp_i64(floor_div(self as int, rhs as int))
        }
    }

    open spec fn lt_spec(self, rhs: Self) -> bool {
        self < rhs
    }

    open spec fn le_spec(self, rhs: Self) -> bool {
        self <= rhs
    }

    open spec fn same_spec(self, rhs: Self) -> bool {
        self == rhs
    }

    open spec fn max_spec(self, rhs: Self) -> Self {
        if self >= rhs {
            self
        } else {
            rhs
        }
    }

    open spec fn min_spec(self, rhs: Self) -> Self {
        if self <= rhs {
            self
        } else {
            rhs
        }
    }

    open spec fn negative_spec(self) -> bool {
        self < 0
    }

    open spec fn finite_spec(self) -> bool {
        true
    }

    open spec fn floor_spec(self) -> isize {
        clamp_isize(self as int)
    }

    fn zero() -> (r: Self) {
        0
    }

    fn from_usize(n: usize) -> (r: Self) {
        if n as u64 > i64::MAX as u64 {
            i64::MAX
        } else {
            n as i64
        }
    }

    fn add(self, rhs: Self) -> (r: Self) {
        if rhs > 0 && self > i64::MAX - rhs {
            i64::MAX
        } else if rhs < 0 && self < i64::MIN - rhs {
            i64::MIN
        } else {
            self + rhs
        }
    }

    fn sub(self, rhs: Self) -> (r: Self) {
        if rhs < 0 && self > i64::MAX + rhs {
            i64::MAX
        } else if rhs > 0 && self < i64::MIN + rhs {
            i64::MIN
        } else {
            self - rhs
        }
    }

    fn mul(self, rhs: Self) -> (r: Self) {
        match self.checked_mul(rhs) {
            Some(v) => v,
            None => {
                proof {
                    crate::index::scalar_i64::lemma_product_sign(self as int, rhs as int);
                }
                if (self < 0) != (rhs < 0) {
                    i64::MIN
                } else {
                    i64::MAX
                }
            },
        }
    }

    fn div(self, rhs: Self) -> (r: Self) {
        if rhs == 0 {
            0
        } else {
            // Make the divisor positive, then divide magnitudes: a negative
            // dividend rounds away from zero.
            let (n, d) = if rhs > 0 {
                (self as i128, rhs as i128)
            } else {
                (-(self as i128), -(rhs as i128))
            };
            let floor = if n >= 0 {
                n / d
            } else {
                let up = (-n + d - 1) / d;
                proof {
                    lemma_floor_of_negative(n as int, d as int);
                }
                -up
            };
            if floor > i64::MAX as i128 {
                i64::MAX
            } else if floor < i64::MIN as i128 {
                i64::MIN
            } else {
                floor as i64
            }
        }
    }

    fn lt(self, rhs: Self) -> (r: bool) {
        self < rhs
    }

    fn le(self, rhs: Self) -> (r: bool) {
        self <= rhs
    }

    fn same(self, rhs: Self) -> (r: bool) {
        self == rhs
    }

    fn max(self, rhs: Self) -> (r: Self) {
        if self >= rhs {
            self
        } else {
            rhs
        }
    }

    fn min(self, rhs: Self) -> (r: Self) {
        if self <= rhs {
            self
        } else {
            rhs
        }
    }

    fn is_sign_negative(self) -> (r: bool) {
        self < 0
    }

    fn is_finite(self) -> (r: bool) {
        true
    }

    fn floor_to_isize(self) -> (r: isize) {
        if self > isize::MAX as i64 {
            isize::MAX
        } else if self < isize::MIN as i64 {
            isize::MIN
        } else {
            self as isize
        }
    }
}

/// For a negative dividend and a positive divisor, the floor of the
/// quotient is the negated ceiling of the quotient of the magnitudes.
pub proof fn lemma_floor_of_negative(n: int, d: int)
    requires
        n < 0,
        d > 0,
    ensures
        n / d == -((-n + d - 1) / d),
{
    let up = (-n + d - 1) / d;
    let rem = (-n + d - 1) % d;
    vstd::arithmetic::div_mod::lemma_fundamental_div_mod(-n + d - 1, d);
    assert(-n + d - 1 == d * up + rem);
    assert(0 <= rem < d);
    let r = d - 1 - rem;
    assert(n == (-up) * d + r) by (nonlinear_arith)
        requires
            -n + d - 1 == d * up + rem,
            r == d - 1 - rem,
    ;
    vstd::arithmetic::div_mod::lemma_fundamental_div_mod_converse(n, d, -up, r);
}

} // verus!
