//! The geometry the tree takes from `kurbo`: rectangles, affine maps,
//! points and rounded rectangles.
//!
//! Values of these types are carried through the tree without being looked
//! into. Every operation on them is a call into `kurbo` whose result is a
//! function of its arguments; the result of each is given a name here, and
//! the tree's contracts speak of those names. Where the source of
//! `kurbo` shows the result in a few lines, as it does for the union and
//! the intersection of rectangles, the same is stated over the order keys
//! of the coordinates. Nothing in this file is proved: each function below
//! is believed to return what its contract says.
//!
//! Two things are left open by the language: the sign of the zero that
//! `min` or `max` picks from two zeros of different sign, and the sign and
//! payload of a result that is not a number. A value of one of these types
//! therefore stands for its coordinates up to those two things, and
//! nothing here tells them apart: a coordinate is read only as its order
//! key, which is the same for both zeros and the same for everything that
//! is not a number, and comparisons and arithmetic do not depend on them
//! either. Up to them, the result of each operation is a function of its
//! arguments.

use crate::box_tree::keys::key_of_bits;
use vstd::prelude::*;

verus! {

/// `kurbo::Rect`: a rectangle of four coordinates `x0, y0, x1, y1`.
#[verifier::external_type_specification]
#[verifier::external_body]
pub struct ExRect(kurbo::Rect);

/// `kurbo::Affine`: a 2D affine map.
#[verifier::external_type_specification]
#[verifier::external_body]
pub struct ExAffine(kurbo::Affine);

/// `kurbo::Point`: a point of two coordinates.
#[verifier::external_type_specification]
#[verifier::external_body]
pub struct ExPoint(kurbo::Point);

/// `kurbo::RoundedRect`: a rectangle with rounded corners.
#[verifier::external_type_specification]
#[verifier::external_body]
pub struct ExRoundedRect(kurbo::RoundedRect);

/// The map `a * b` of `kurbo`: apply `b`, then `a`.
pub uninterp spec fn affine_product(a: kurbo::Affine, b: kurbo::Affine) -> kurbo::Affine;

/// The inverse of `a` as `kurbo::Affine::inverse` computes it.
pub uninterp spec fn affine_inverted(a: kurbo::Affine) -> kurbo::Affine;

/// The image `a * p` of a point.
pub uninterp spec fn affine_image(a: kurbo::Affine, p: kurbo::Point) -> kurbo::Point;

/// Whether `a == b` holds of two maps in `kurbo`.
pub uninterp spec fn affine_same(a: kurbo::Affine, b: kurbo::Affine) -> bool;

/// Whether `a == b` holds of two rectangles in `kurbo`.
pub uninterp spec fn rect_same(a: kurbo::Rect, b: kurbo::Rect) -> bool;

/// Whether `a == b` holds of two rounded rectangles in `kurbo`.
pub uninterp spec fn rounded_same(a: kurbo::RoundedRect, b: kurbo::RoundedRect) -> bool;

/// The bounding box of `rect` under `a`, as
/// `kurbo::Affine::transform_rect_bbox` computes it.
pub uninterp spec fn bbox_of(a: kurbo::Affine, rect: kurbo::Rect) -> kurbo::Rect;

/// The rectangle of a rounded rectangle, without its corners.
pub uninterp spec fn clip_rect(rr: kurbo::RoundedRect) -> kurbo::Rect;

/// The intersection of two rectangles, as `kurbo::Rect::intersect`
/// computes it.
pub uninterp spec fn rect_meet(a: kurbo::Rect, b: kurbo::Rect) -> kurbo::Rect;

/// The smallest rectangle enclosing two rectangles, as `kurbo::Rect::union`
/// computes it.
pub uninterp spec fn rect_join(a: kurbo::Rect, b: kurbo::Rect) -> kurbo::Rect;

/// Whether `kurbo::Rect::contains` holds of the point: the rectangle is
/// closed at its minimum edges and open at its maximum edges.
pub uninterp spec fn rect_holds(r: kurbo::Rect, p: kurbo::Point) -> bool;

/// Whether the rounded rectangle contains the point, by
/// `kurbo::Shape::contains`.
pub uninterp spec fn rounded_holds(rr: kurbo::RoundedRect, p: kurbo::Point) -> bool;

/// The order keys of a rectangle's coordinates `x0, y0, x1, y1`.
pub uninterp spec fn rect_keys(r: kurbo::Rect) -> (i64, i64, i64, i64);

/// The order keys of a point's coordinates `x, y`.
pub uninterp spec fn point_keys(p: kurbo::Point) -> (i64, i64);

/// The order keys of four bit patterns.
pub open spec fn keys_of_four(b: (u64, u64, u64, u64)) -> (i64, i64, i64, i64) {
    (key_of_bits(b.0), key_of_bits(b.1), key_of_bits(b.2), key_of_bits(b.3))
}

/// The order keys of two bit patterns.
pub open spec fn keys_of_two(b: (u64, u64)) -> (i64, i64) {
    (key_of_bits(b.0), key_of_bits(b.1))
}

/// Whether four keys are keys of numbers: none is the key of what is not
/// a number.
pub open spec fn numbers(k: (i64, i64, i64, i64)) -> bool {
    k.0 < i64::MAX && k.1 < i64::MAX && k.2 < i64::MAX && k.3 < i64::MAX
}

/// Whether two keys are keys of numbers.
pub open spec fn number_pair(k: (i64, i64)) -> bool {
    k.0 < i64::MAX && k.1 < i64::MAX
}

/// The lesser of two keys.
pub open spec fn lesser(a: i64, b: i64) -> i64 {
    if a <= b {
        a
    } else {
        b
    }
}

/// The greater of two keys.
pub open spec fn greater(a: i64, b: i64) -> i64 {
    if a <= b {
        b
    } else {
        a
    }
}

/// The keys of the union of two rectangles of numbers: the lesser of the
/// minima and the greater of the maxima.
pub open spec fn joined_keys(a: (i64, i64, i64, i64), b: (i64, i64, i64, i64)) -> (
    i64,
    i64,
    i64,
    i64,
) {
    (lesser(a.0, b.0), lesser(a.1, b.1), greater(a.2, b.2), greater(a.3, b.3))
}

/// The keys of the intersection of two rectangles of numbers: the greater
/// of the minima, and the lesser of the maxima unless that lies below the
/// minimum, which then stands for it.
pub open spec fn met_keys(a: (i64, i64, i64, i64), b: (i64, i64, i64, i64)) -> (
    i64,
    i64,
    i64,
    i64,
) {
    let x0 = greater(a.0, b.0);
    let y0 = greater(a.1, b.1);
    (x0, y0, greater(lesser(a.2, b.2), x0), greater(lesser(a.3, b.3), y0))
}

/// Whether a point with keys `q` is a corner of a rectangle with keys
/// `k`: each of its coordinates is the minimum or the maximum on its axis.
pub open spec fn corner_of(k: (i64, i64, i64, i64), q: (i64, i64)) -> bool {
    (q.0 == k.0 || q.0 == k.2) && (q.1 == k.1 || q.1 == k.3)
}

/// Whether a rectangle with keys `k` holds a point with keys `q`, edges
/// included.
pub open spec fn holds_point(k: (i64, i64, i64, i64), q: (i64, i64)) -> bool {
    k.0 <= q.0 && q.0 <= k.2 && k.1 <= q.1 && q.1 <= k.3
}

/// Whether the rectangle `bbox` holds the image under `a` of every corner
/// of `rect` whose image is a point of numbers.
pub open spec fn holds_corner_images(a: kurbo::Affine, rect: kurbo::Rect, bbox: kurbo::Rect) -> bool {
    forall|p: kurbo::Point|
        corner_of(rect_keys(rect), point_keys(p)) && number_pair(
            point_keys(#[trigger] affine_image(a, p)),
        ) ==> holds_point(rect_keys(bbox), point_keys(affine_image(a, p)))
}

/// Whether the rectangle with keys `outer` covers the one with keys
/// `inner`: its minima are at or below, its maxima at or above.
pub open spec fn covers(outer: (i64, i64, i64, i64), inner: (i64, i64, i64, i64)) -> bool {
    outer.0 <= inner.0 && outer.1 <= inner.1 && inner.2 <= outer.2 && inner.3 <= outer.3
}

/// `kurbo`'s `Mul for Affine`: the product `a * b`.
#[verifier::external_body]
pub(crate) fn affine_mul(a: kurbo::Affine, b: kurbo::Affine) -> (r: kurbo::Affine)
    ensures
        r == affine_product(a, b),
{
    a * b
}

/// `kurbo::Affine::inverse`. It returns for every map, with coefficients
/// that are not numbers where the determinant is zero.
#[verifier::external_body]
pub(crate) fn affine_inverse(a: kurbo::Affine) -> (r: kurbo::Affine)
    ensures
        r == affine_inverted(a),
{
    a.inverse()
}

/// `kurbo`'s `Mul<Point> for Affine`: the image of a point.
#[verifier::external_body]
pub(crate) fn affine_apply(a: kurbo::Affine, p: kurbo::Point) -> (r: kurbo::Point)
    ensures
        r == affine_image(a, p),
{
    a * p
}

/// `kurbo`'s `PartialEq for Affine`.
#[verifier::external_body]
pub(crate) fn affine_eq(a: kurbo::Affine, b: kurbo::Affine) -> (r: bool)
    ensures
        r == affine_same(a, b),
{
    a == b
}

/// `kurbo`'s `PartialEq for Rect`, which is derived: two rectangles of
/// numbers are equal where their coordinates are, that is, where their
/// keys are.
#[verifier::external_body]
pub(crate) fn rect_eq(a: kurbo::Rect, b: kurbo::Rect) -> (r: bool)
    ensures
        r == rect_same(a, b),
        numbers(rect_keys(a)) && numbers(rect_keys(b)) ==> r == (rect_keys(a) == rect_keys(b)),
{
    a == b
}

/// `kurbo`'s `PartialEq for RoundedRect`.
#[verifier::external_body]
pub(crate) fn rounded_eq(a: kurbo::RoundedRect, b: kurbo::RoundedRect) -> (r: bool)
    ensures
        r == rounded_same(a, b),
{
    a == b
}

/// `kurbo::Affine::transform_rect_bbox`: the smallest rectangle that
/// encloses the four transformed corners of `rect`. It takes the image of
/// each corner as `Affine * Point` gives it, and of the four images the
/// least and the greatest coordinate on each axis, passing over what is
/// not a number; so where the result is a rectangle of numbers it holds
/// every corner image that is a point of numbers.
#[verifier::external_body]
pub(crate) fn transform_rect_bbox(affine: kurbo::Affine, rect: kurbo::Rect) -> (r: kurbo::Rect)
    ensures
        r == bbox_of(affine, rect),
        numbers(rect_keys(r)) ==> holds_corner_images(affine, rect, r),
{
    affine.transform_rect_bbox(rect)
}

/// `kurbo::RoundedRect::rect`.
#[verifier::external_body]
pub(crate) fn rounded_rect_of(rr: kurbo::RoundedRect) -> (r: kurbo::Rect)
    ensures
        r == clip_rect(rr),
{
    rr.rect()
}

/// `kurbo::Rect::intersect`: the greater of the minima, and the lesser of
/// the maxima, raised to the minimum where it lies below it. Of numbers
/// the result is a rectangle of numbers.
#[verifier::external_body]
pub(crate) fn rect_intersect(a: kurbo::Rect, b: kurbo::Rect) -> (r: kurbo::Rect)
    ensures
        r == rect_meet(a, b),
        numbers(rect_keys(a)) && numbers(rect_keys(b)) ==> rect_keys(r) == met_keys(
            rect_keys(a),
            rect_keys(b),
        ),
{
    a.intersect(b)
}

/// `kurbo::Rect::union`: the lesser of the minima and the greater of the
/// maxima. Of numbers the result is a rectangle of numbers.
#[verifier::external_body]
pub(crate) fn rect_union(a: kurbo::Rect, b: kurbo::Rect) -> (r: kurbo::Rect)
    ensures
        r == rect_join(a, b),
        numbers(rect_keys(a)) && numbers(rect_keys(b)) ==> rect_keys(r) == joined_keys(
            rect_keys(a),
            rect_keys(b),
        ),
{
    a.union(b)
}

/// `kurbo::Rect::contains`: the point lies at or above the minimum and
/// below the maximum on both axes.
#[verifier::external_body]
pub(crate) fn rect_contains(r: kurbo::Rect, p: kurbo::Point) -> (b: bool)
    ensures
        b == rect_holds(r, p),
        numbers(rect_keys(r)) && number_pair(point_keys(p)) ==> b == (rect_keys(r).0
            <= point_keys(p).0 && point_keys(p).0 < rect_keys(r).2 && rect_keys(r).1
            <= point_keys(p).1 && point_keys(p).1 < rect_keys(r).3),
{
    r.contains(p)
}

/// `kurbo::Shape::contains` for `RoundedRect`.
#[verifier::external_body]
pub(crate) fn rounded_contains(rr: kurbo::RoundedRect, p: kurbo::Point) -> (b: bool)
    ensures
        b == rounded_holds(rr, p),
{
    kurbo::Shape::contains(&rr, p)
}

/// The public fields of `kurbo::Rect`, each as its bit pattern. Of the
/// patterns only their order keys are claimed to belong to the rectangle.
#[verifier::external_body]
pub(crate) fn rect_bits(r: kurbo::Rect) -> (b: (u64, u64, u64, u64))
    ensures
        keys_of_four(b) == rect_keys(r),
{
    (r.x0.to_bits(), r.y0.to_bits(), r.x1.to_bits(), r.y1.to_bits())
}

/// The public fields of `kurbo::Point`, each as its bit pattern. Of the
/// patterns only their order keys are claimed to belong to the point.
#[verifier::external_body]
pub(crate) fn point_bits(p: kurbo::Point) -> (b: (u64, u64))
    ensures
        keys_of_two(b) == point_keys(p),
{
    (p.x.to_bits(), p.y.to_bits())
}

/// `kurbo::Rect::ZERO`, the rectangle of four zero coordinates, each of
/// which has the order key zero.
#[verifier::external_body]
pub(crate) fn zero_rect() -> (r: kurbo::Rect)
    ensures
        rect_keys(r) == (0i64, 0i64, 0i64, 0i64),
{
    kurbo::Rect::ZERO
}

/// `kurbo::Affine::IDENTITY`, the map that moves nothing.
#[verifier::external_body]
pub(crate) fn identity_affine() -> kurbo::Affine {
    kurbo::Affine::IDENTITY
}

} // verus!
