//! The signed 64-bit integer scalar, with a 128-bit accumulator.

use crate::index::types::Scalar;
use vstd::prelude::*;

verus! {

/// The accumulator type of a scalar.
pub type ScalarAcc<T> = <T as Scalar>::Acc;

/// `v` clamped into the range of `i64`.
pub open spec fn clamp_i64(v: int) -> i64 {
    if v > i64::MAX {
        i64::MAX
    } else if v < i64::MIN {
        i64::MIN
    } else {
        v as i64
    }
}

/// `v` clamped into the range of `i128`.
pub open spec fn clamp_i128(v: int) -> i128 {
    if v > i128::MAX {
        i128::MAX
    } else if v < i128::MIN {
        i128::MIN
    } else {
        v as i128
    }
}

/// Coordinates saturate on overflow; accumulators saturate too, so cost
/// comparisons never wrap.
impl Scalar for i64 {
    type Acc = i128;

    open spec fn add_spec(a: Self, b: Self) -> Self {
        clamp_i64(a + b)
    }

    open spec fn sub_spec(a: Self, b: Self) -> Self {
        clamp_i64(a - b)
    }

    open spec fn zero_spec() -> Self {
        0
    }

    open spec fn max_spec(a: Self, b: Self) -> Self {
        if a >= b {
            a
        } else {
            b
        }
    }

    open spec fn min_spec(a: Self, b: Self) -> Self {
        if a <= b {
            a
        } else {
            b
        }
    }

    /// The average of `a` and `b`, rounded toward negative infinity.
    open spec fn mid_spec(a: Self, b: Self) -> Self {
        ((a + b) / 2) as i64
    }

    open spec fn widen_spec(v: Self) -> Self::Acc {
        v as i128
    }

    open spec fn acc_from_usize_spec(n: usize) -> Self::Acc {
        n as i128
    }

    open spec fn acc_add_spec(a: Self::Acc, b: Self::Acc) -> Self::Acc {
        clamp_i128(a + b)
    }

    open spec fn acc_mul_spec(a: Self::Acc, b: Self::Acc) -> Self::Acc {
        clamp_i128(a * b)
    }

    open spec fn acc_lt_spec(a: Self::Acc, b: Self::Acc) -> bool {
        a < b
    }

    proof fn lemma_order(a: Self, b: Self, c: Self) {
    }

    proof fn lemma_acc_order(a: Self::Acc, b: Self::Acc, c: Self::Acc) {
    }

    fn add(a: Self, b: Self) -> (r: Self) {
        if b > 0 && a > i64::MAX - b {
            i64::MAX
        } else if b < 0 && a < i64::MIN - b {
            i64::MIN
        } else {
            a + b
        }
    }

    fn sub(a: Self, b: Self) -> (r: Self) {
        if b < 0 && a > i64::MAX + b {
            i64::MAX
        } else if b > 0 && a < i64::MIN + b {
            i64::MIN
        } else {
            a - b
        }
    }

    fn zero() -> (r: Self) {
        0
    }

    fn max(a: Self, b: Self) -> (r: Self) {
        if a >= b {
            a
        } else {
            b
        }
    }

    fn min(a: Self, b: Self) -> (r: Self) {
        if a <= b {
            a
        } else {
            b
        }
    }

    fn mid(a: Self, b: Self) -> (r: Self) {
        // Average without overflow: the shared bits plus half the differing bits.
        let shared: i64 = a & b;
        let differing: i64 = a ^ b;
        let half: i64 = differing >> 1;
        assert(shared as int + half as int == (a as int + b as int) / 2) by {
            lemma_mid_bits(a, b);
        }
        shared + half
    }

    fn widen(v: Self) -> (r: Self::Acc) {
        v as i128
    }

    fn acc_from_usize(n: usize) -> (r: Self::Acc) {
        n as i128
    }

    fn acc_add(a: Self::Acc, b: Self::Acc) -> (r: Self::Acc) {
        if b > 0 && a > i128::MAX - b {
            i128::MAX
        } else if b < 0 && a < i128::MIN - b {
            i128::MIN
        } else {
            a + b
        }
    }

    fn acc_mul(a: Self::Acc, b: Self::Acc) -> (r: Self::Acc) {
        match a.checked_mul(b) {
            Some(v) => v,
            None => {
                proof {
                    lemma_product_sign(a as int, b as int);
                }
                if (a < 0) != (b < 0) {
                    i128::MIN
                } else {
                    i128::MAX
                }
            },
        }
    }

    fn acc_lt(a: Self::Acc, b: Self::Acc) -> (r: bool) {
        a < b
    }
}

/// The sign of a product follows the signs of its factors.
pub proof fn lemma_product_sign(a: int, b: int)
    ensures
        (a < 0) != (b < 0) ==> a * b <= 0,
        (a < 0) == (b < 0) ==> a * b >= 0,
{
    assert((a < 0) != (b < 0) ==> a * b <= 0) by (nonlinear_arith);
    assert((a < 0) == (b < 0) ==> a * b >= 0) by (nonlinear_arith);
}

/// Division by a positive number, rounded toward negative infinity, is
/// monotonic in the dividend.
pub proof fn lemma_floor_monotonic(a: int, b: int, d: int)
    requires
        a <= b,
        d > 0,
    ensures
        a / d <= b / d,
{
    vstd::arithmetic::div_mod::lemma_div_is_ordered(a, b, d);
}

/// The bit identity behind [`Scalar::mid`] for `i64`: the bits two numbers
/// share, plus half of the bits in which they differ, is their average
/// rounded down.
pub proof fn lemma_mid_bits(a: i64, b: i64)
    ensures
        (a & b) as int + ((a ^ b) >> 1) as int == (a as int + b as int) / 2,
{
    let s: i64 = a & b;
    let d: i64 = a ^ b;
    let h: i64 = d >> 1;
    // a + b == 2 * (a & b) + (a ^ b), taken in 128 bits where nothing wraps.
    assert((a as i128) + (b as i128) == 2 * ((a & b) as i128) + ((a ^ b) as i128)) by (bit_vector);
    assert(d == 2 * (d >> 1) + (d & 1)) by (bit_vector);
    assert(0 <= (d & 1) <= 1) by (bit_vector);
}

} // verus!
