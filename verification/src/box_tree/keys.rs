//! Integer keys for world-space coordinates.
//!
//! The spatial index orders and compares coordinates; it does no
//! arithmetic on them. The tree therefore hands it, for each coordinate,
//! an integer that orders as the coordinate does.

use crate::box_tree::geometry::{point_bits, point_keys, rect_bits, rect_keys};
use crate::index::types::Aabb2D;
use vstd::prelude::*;

verus! {

/// Whether `bits` is the pattern of a number: of anything but a NaN. The
/// patterns of the infinities are the largest magnitudes that are.
pub open spec fn is_number(bits: u64) -> bool {
    bits <= 0x7ff0_0000_0000_0000 || (0x8000_0000_0000_0000 <= bits && bits
        <= 0xfff0_0000_0000_0000)
}

/// The key of a coordinate with bit pattern `bits`. A number is read as
/// sign and magnitude: its key is the magnitude for a clear sign bit and
/// the negated magnitude for a set one, so that both zeros have key zero
/// and of two numbers the larger has the larger key. Every pattern that
/// is not a number has one and the same key, above all others.
pub open spec fn key_of_bits(bits: u64) -> i64 {
    if !is_number(bits) {
        i64::MAX
    } else if bits < 0x8000_0000_0000_0000 {
        bits as i64
    } else {
        (0x8000_0000_0000_0000 - bits) as i64
    }
}

/// The box of keys of a rectangle's four coordinates.
pub open spec fn keys_of_rect(r: kurbo::Rect) -> Aabb2D<i64> {
    let k = rect_keys(r);
    Aabb2D { min_x: k.0, min_y: k.1, max_x: k.2, max_y: k.3 }
}

/// The keys of a point's two coordinates.
pub open spec fn keys_of_point(p: kurbo::Point) -> (i64, i64) {
    point_keys(p)
}

/// Compute [`key_of_bits`].
pub fn float_key(bits: u64) -> (k: i64)
    ensures
        k == key_of_bits(bits),
{
    if bits <= 0x7ff0_0000_0000_0000 {
        bits as i64
    } else if bits < 0x8000_0000_0000_0000 {
        i64::MAX
    } else if bits <= 0xfff0_0000_0000_0000 {
        let magnitude = bits - 0x8000_0000_0000_0000;
        -(magnitude as i64)
    } else {
        i64::MAX
    }
}

/// The box of keys under which a rectangle is indexed.
pub fn rect_to_aabb(r: kurbo::Rect) -> (a: Aabb2D<i64>)
    ensures
        a == keys_of_rect(r),
{
    let b = rect_bits(r);
    Aabb2D {
        min_x: float_key(b.0),
        min_y: float_key(b.1),
        max_x: float_key(b.2),
        max_y: float_key(b.3),
    }
}

/// The keys under which a point is looked up.
pub fn point_to_keys(p: kurbo::Point) -> (k: (i64, i64))
    ensures
        k == keys_of_point(p),
{
    let b = point_bits(p);
    (float_key(b.0), float_key(b.1))
}

/// Keys keep the order of the numbers they come from: among patterns with
/// a clear sign bit the larger pattern has the larger key, among patterns
/// with a set sign bit the smaller one has, and every key of the second
/// kind is at most every key of the first. The key of what is not a number
/// is above the key of every number.
pub proof fn lemma_key_order(a: u64, b: u64)
    requires
        is_number(a),
    ensures
        key_of_bits(0) == 0 && key_of_bits(0x8000_0000_0000_0000) == 0,
        key_of_bits(a) < i64::MAX,
        !is_number(b) ==> key_of_bits(a) < key_of_bits(b),
        is_number(b) && a < 0x8000_0000_0000_0000 && b < 0x8000_0000_0000_0000 ==> (a <= b
            <==> key_of_bits(a) <= key_of_bits(b)),
        is_number(b) && a >= 0x8000_0000_0000_0000 && b >= 0x8000_0000_0000_0000 ==> (a <= b
            <==> key_of_bits(a) >= key_of_bits(b)),
        is_number(b) && a >= 0x8000_0000_0000_0000 && b < 0x8000_0000_0000_0000 ==> key_of_bits(a)
            <= key_of_bits(b),
{
}

} // verus!
