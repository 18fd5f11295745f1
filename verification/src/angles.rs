use vstd::prelude::*;
use crate::math::{sqrt_floor, isqrt, lemma_sqrt_floor_bounds};

verus! {

/// A displacement in frame coordinates.
#[derive(Debug, Clone, Copy, PartialEq, Eq, Structural)]
pub struct Vector(pub i32, pub i32);

/// Squared length of a vector.
pub open spec fn vec_len2(v: Vector) -> int {
    v.0 * v.0 + v.1 * v.1
}

impl Vector {
    /// The dot product of two vectors.
    pub fn dotproduct(&self, other: Vector) -> (r: i32)
        requires
            i32::MIN <= self.0 * other.0 + self.1 * other.1 <= i32::MAX,
        ensures
            r == self.0 * other.0 + self.1 * other.1,
    {
        proof {
            assert(-0x4000_0000_0000_0000 <= (self.0 as int) * (other.0 as int)
                <= 0x4000_0000_0000_0000) by (nonlinear_arith)
                requires
                    -0x8000_0000 <= self.0 <= 0x7fff_ffff,
                    -0x8000_0000 <= other.0 <= 0x7fff_ffff,
            ;
            assert(-0x4000_0000_0000_0000 <= (self.1 as int) * (other.1 as int)
                <= 0x4000_0000_0000_0000) by (nonlinear_arith)
                requires
                    -0x8000_0000 <= self.1 <= 0x7fff_ffff,
                    -0x8000_0000 <= other.1 <= 0x7fff_ffff,
            ;
        }
        let p0: i64 = (self.0 as i64) * (other.0 as i64);
        let p1: i64 = (self.1 as i64) * (other.1 as i64);
        (p0 + p1) as i32
    }

    /// The length of the vector, truncated to an integer; lengths beyond
    /// `i32::MAX` saturate.
    pub fn magnitude(&self) -> (r: i32)
        ensures
            sqrt_floor(vec_len2(*self)) <= i32::MAX ==> r == sqrt_floor(vec_len2(*self)),
            sqrt_floor(vec_len2(*self)) > i32::MAX ==> r == i32::MAX,
    {
        let ax: u64 = if self.0 >= 0 {
            self.0 as u64
        } else {
            (-(self.0 as i64)) as u64
        };
        let ay: u64 = if self.1 >= 0 {
            self.1 as u64
        } else {
            (-(self.1 as i64)) as u64
        };
        proof {
            vstd::arithmetic::mul::lemma_mul_upper_bound(
                ax as int,
                0x8000_0000,
                ax as int,
                0x8000_0000,
            );
            vstd::arithmetic::mul::lemma_mul_upper_bound(
                ay as int,
                0x8000_0000,
                ay as int,
                0x8000_0000,
            );
            assert((ax as int) * (ax as int) == (self.0 as int) * (self.0 as int))
                by (nonlinear_arith)
                requires
                    ax == self.0 || ax == -(self.0 as int),
            ;
            assert((ay as int) * (ay as int) == (self.1 as int) * (self.1 as int))
                by (nonlinear_arith)
                requires
                    ay == self.1 || ay == -(self.1 as int),
            ;
        }
        let d2: u64 = ax * ax + ay * ay;
        let s = isqrt(d2);
        if s > 0x7fff_ffff {
            i32::MAX
        } else {
            s as i32
        }
    }
}

} // verus!
