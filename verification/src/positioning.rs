use vstd::prelude::*;
use crate::bounding_box::BoundingBox;
use crate::math::{sqrt_floor, isqrt, lemma_sqrt_floor_bounds};

verus! {

/// A point in frame coordinates.
#[derive(Copy, Clone, Debug, PartialEq, Eq, PartialOrd, Ord, Hash, Structural)]
pub struct Position {
    pub x: u32,
    pub y: u32,
}

/// Squared Euclidean distance between two positions.
pub open spec fn pos_dist2(a: Position, b: Position) -> int {
    (a.x - b.x) * (a.x - b.x) + (a.y - b.y) * (a.y - b.y)
}

/// The centroid of a box, as a position: the floored midpoint of its bounds.
pub open spec fn position_of(b: BoundingBox) -> Position {
    Position { x: (((b.x_min + b.x_max) / 2) as u32), y: (((b.y_min + b.y_max) / 2) as u32) }
}

/// Coordinates small enough for the distance arithmetic to stay in range.
pub open spec fn pos_in_range(p: Position) -> bool {
    p.x < 0x8000_0000 && p.y < 0x8000_0000
}

impl Position {
    /// The absolute Euclidean distance to another point, truncated to an
    /// integer.
    pub fn distance(&self, other: &Position) -> (r: u32)
        requires
            pos_in_range(*self),
            pos_in_range(*other),
        ensures
            r == sqrt_floor(pos_dist2(*self, *other)),
    {
        let dx: u64 = if self.x >= other.x {
            (self.x - other.x) as u64
        } else {
            (other.x - self.x) as u64
        };
        let dy: u64 = if self.y >= other.y {
            (self.y - other.y) as u64
        } else {
            (other.y - self.y) as u64
        };
        proof {
            vstd::arithmetic::mul::lemma_mul_upper_bound(
                dx as int,
                0x7fff_ffff,
                dx as int,
                0x7fff_ffff,
            );
            vstd::arithmetic::mul::lemma_mul_upper_bound(
                dy as int,
                0x7fff_ffff,
                dy as int,
                0x7fff_ffff,
            );
            assert((dx as int) * (dx as int) == (self.x - other.x) * (self.x - other.x))
                by (nonlinear_arith)
                requires
                    dx == self.x - other.x || dx == other.x - self.x,
            ;
            assert((dy as int) * (dy as int) == (self.y - other.y) * (self.y - other.y))
                by (nonlinear_arith)
                requires
                    dy == self.y - other.y || dy == other.y - self.y,
            ;
        }
        let d2: u64 = dx * dx + dy * dy;
        let r64 = isqrt(d2);
        proof {
            lemma_sqrt_floor_bounds(d2 as int);
            let s = sqrt_floor(d2 as int);
            assert(s < 3037000500) by (nonlinear_arith)
                requires
                    s >= 0,
                    s * s <= d2 as int,
                    d2 < 0x8000_0000_0000_0000u64,
            ;
        }
        r64 as u32
    }
}

impl core::convert::From<BoundingBox> for Position {
    /// The box's centroid.
    fn from(value: BoundingBox) -> (r: Self) {
        Position {
            x: (((value.x_min as u64) + (value.x_max as u64)) / 2) as u32,
            y: (((value.y_min as u64) + (value.y_max as u64)) / 2) as u32,
        }
    }
}

impl vstd::std_specs::convert::FromSpecImpl<BoundingBox> for Position {
    open spec fn obeys_from_spec() -> bool {
        true
    }

    open spec fn from_spec(t: BoundingBox) -> Position {
        position_of(t)
    }
}

/// Truncated Euclidean distance between the centroids of two boxes.
pub fn distance(a: &BoundingBox, b: &BoundingBox) -> (r: u32)
    requires
        crate::distance::coords_in_range(*a),
        crate::distance::coords_in_range(*b),
    ensures
        r == sqrt_floor(pos_dist2(position_of(*a), position_of(*b))),
{
    let pa = Position::from(*a);
    let pb = Position::from(*b);
    pa.distance(&pb)
}

} // verus!
