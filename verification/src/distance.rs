use vstd::prelude::*;
use crate::bounding_box::BoundingBox;
use crate::math::{sqrt_round, isqrt_round, lemma_sqrt_floor_bounds, lemma_sqrt_round_zero};

verus! {

/// `x` coordinate of a box's centroid: the floored midpoint of its bounds.
pub open spec fn centroid_x(b: BoundingBox) -> int {
    (b.x_min + b.x_max) / 2
}

/// `y` coordinate of a box's centroid.
pub open spec fn centroid_y(b: BoundingBox) -> int {
    (b.y_min + b.y_max) / 2
}

/// Squared Euclidean distance between two boxes' centroids.
pub open spec fn centroid_dist2(a: BoundingBox, b: BoundingBox) -> int {
    (centroid_x(a) - centroid_x(b)) * (centroid_x(a) - centroid_x(b)) + (centroid_y(a)
        - centroid_y(b)) * (centroid_y(a) - centroid_y(b))
}

/// Coordinates small enough for the distance arithmetic to stay in range.
pub open spec fn coords_in_range(b: BoundingBox) -> bool {
    b.x_min < 0x8000_0000 && b.x_max < 0x8000_0000 && b.y_min < 0x8000_0000 && b.y_max
        < 0x8000_0000
}

/// Midpoint of the box's bounds on each axis, with integer (floor) division.
pub fn centroid(bbox: BoundingBox) -> (r: (u32, u32))
    ensures
        r.0 == centroid_x(bbox),
        r.1 == centroid_y(bbox),
{
    (
        ((bbox.x_min as u64 + bbox.x_max as u64) / 2) as u32,
        ((bbox.y_min as u64 + bbox.y_max as u64) / 2) as u32,
    )
}

/// Euclidean distance between two boxes' centroids, rounded to the nearest
/// integer. Symmetric in its arguments, and zero for a box against itself
/// (see `lemma_centroid_distance_symmetric` and
/// `lemma_centroid_distance_self`).
pub fn centroid_distance(bbox_1: BoundingBox, bbox_2: BoundingBox) -> (r: u32)
    requires
        coords_in_range(bbox_1),
        coords_in_range(bbox_2),
    ensures
        r == sqrt_round(centroid_dist2(bbox_1, bbox_2)),
{
    let c1 = centroid(bbox_1);
    let c2 = centroid(bbox_2);
    let dx: u64 = if c1.0 >= c2.0 {
        (c1.0 - c2.0) as u64
    } else {
        (c2.0 - c1.0) as u64
    };
    let dy: u64 = if c1.1 >= c2.1 {
        (c1.1 - c2.1) as u64
    } else {
        (c2.1 - c1.1) as u64
    };
    proof {
        vstd::arithmetic::mul::lemma_mul_upper_bound(
            dx as int,
            0x7fff_ffff,
            dx as int,
            0x7fff_ffff,
        );
        vstd::arithmetic::mul::lemma_mul_upper_bound(
            dy as int,
            0x7fff_ffff,
            dy as int,
            0x7fff_ffff,
        );
        assert((dx as int) * (dx as int) == (centroid_x(bbox_1) - centroid_x(bbox_2)) * (
        centroid_x(bbox_1) - centroid_x(bbox_2))) by (nonlinear_arith)
            requires
                dx == centroid_x(bbox_1) - centroid_x(bbox_2) || dx == centroid_x(bbox_2)
                    - centroid_x(bbox_1),
        ;
        assert((dy as int) * (dy as int) == (centroid_y(bbox_1) - centroid_y(bbox_2)) * (
        centroid_y(bbox_1) - centroid_y(bbox_2))) by (nonlinear_arith)
            requires
                dy == centroid_y(bbox_1) - centroid_y(bbox_2) || dy == centroid_y(bbox_2)
                    - centroid_y(bbox_1),
        ;
    }
    let d2: u64 = dx * dx + dy * dy;
    let r64 = isqrt_round(d2);
    proof {
        lemma_sqrt_floor_bounds(d2 as int);
        let s = crate::math::sqrt_floor(d2 as int);
        assert(s < 3037000500) by (nonlinear_arith)
            requires
                s >= 0,
                s * s <= d2 as int,
                d2 < 0x8000_0000_0000_0000u64,
        ;
        assert(r64 <= u32::MAX as u64);
    }
    r64 as u32
}

/// The distance between two detected LEDs: the rounded Euclidean distance
/// between their boxes' centroids.
pub fn distance(led_1: &crate::led_detector::Led, led_2: &crate::led_detector::Led) -> (r: u32)
    requires
        coords_in_range(led_1.bbox),
        coords_in_range(led_2.bbox),
    ensures
        r == sqrt_round(centroid_dist2(led_1.bbox, led_2.bbox)),
{
    centroid_distance(led_1.bbox, led_2.bbox)
}

/// Centroid distance is symmetric: swapping the boxes leaves it unchanged.
pub proof fn lemma_centroid_distance_symmetric(a: BoundingBox, b: BoundingBox)
    ensures
        sqrt_round(centroid_dist2(a, b)) == sqrt_round(centroid_dist2(b, a)),
{
    assert(centroid_dist2(a, b) == centroid_dist2(b, a)) by (nonlinear_arith);
}

/// The centroid distance from a box to itself is zero.
pub proof fn lemma_centroid_distance_self(a: BoundingBox)
    ensures
        sqrt_round(centroid_dist2(a, a)) == 0,
{
    assert(centroid_dist2(a, a) == 0) by (nonlinear_arith);
    lemma_sqrt_round_zero();
}

} // verus!
