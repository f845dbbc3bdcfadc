//! Small numeric helpers.

use vstd::prelude::*;

verus! {

/// The integer square root of `usize`, from the standard library: the
/// largest `s` whose square does not exceed `num`. The contract restates
/// the documented rounding-down; the body is not verified.
#[verifier::external_body]
fn isqrt_floor(num: usize) -> (s: usize)
    ensures
        s * s <= num,
        num < (s + 1) * (s + 1),
{
    num.isqrt()
}

/// Whether `r` is the square root of `num`, rounded up: the least number
/// whose square reaches `num`.
pub open spec fn is_sqrt_ceil(num: usize, r: usize) -> bool {
    &&& r * r >= num
    &&& r > 0 ==> (r - 1) * (r - 1) < num
}

/// Returns the square root of the number, rounded up.
pub fn isqrt_ceil(num: usize) -> (r: usize)
    ensures
        is_sqrt_ceil(num, r),
{
    let s = isqrt_floor(num);
    assert(s < usize::MAX) by (nonlinear_arith)
        requires
            s * s <= num,
            num <= usize::MAX,
            usize::MAX >= 0xffff_ffff,
    ;
    // The square cannot overflow: it is at most `num`.
    if s * s < num {
        assert((s + 1 - 1) * (s + 1 - 1) == s * s);
        s + 1
    } else {
        assert(s > 0 ==> (s - 1) * (s - 1) < s * s) by (nonlinear_arith);
        s
    }
}

} // verus!
