use vstd::prelude::*;
use crate::error::Error;

verus! {

/// An axis-aligned rectangle over pixel coordinates.
///
/// Invariant (`wf`): `x_min <= x_max` and `y_min <= y_max`. Construction and
/// every mutation re-validate the ordering and fail with
/// [`Error::InvalidRange`] instead of producing a crossed box.
#[derive(Debug, Clone, Copy, PartialEq, Eq, Structural)]
pub struct BoundingBox {
    pub x_min: u32,
    pub y_min: u32,
    pub x_max: u32,
    pub y_max: u32,
}

impl BoundingBox {
    /// The ordering invariant: bounds do not cross on either axis.
    pub open spec fn wf(self) -> bool {
        self.x_min <= self.x_max && self.y_min <= self.y_max
    }

    /// Number of pixel columns the box iterates over (exclusive upper bound).
    pub open spec fn span_x(self) -> int {
        self.x_max - self.x_min
    }

    /// Number of pixel rows the box iterates over (exclusive upper bound).
    pub open spec fn span_y(self) -> int {
        self.y_max - self.y_min
    }

    /// The coordinates iterated by `iter`, in column-major order: `x` runs
    /// over `[x_min, x_max)` outermost, `y` over `[y_min, y_max)` innermost.
    /// The upper bounds are exclusive, so the rightmost column and bottommost
    /// row of the box are not part of the sequence.
    pub open spec fn coords(self) -> Seq<(u32, u32)> {
        Seq::new(
            (self.span_x() * self.span_y()) as nat,
            |k: int|
                (
                    ((self.x_min + k / self.span_y()) as u32),
                    ((self.y_min + k % self.span_y()) as u32),
                ),
        )
    }

    /// Every iterated coordinate lies within the box's half-open ranges.
    pub proof fn lemma_coords_in_box(self, k: int)
        requires
            self.wf(),
            0 <= k < self.coords().len(),
        ensures
            self.x_min <= self.coords()[k].0 < self.x_max,
            self.y_min <= self.coords()[k].1 < self.y_max,
    {
        let sx = self.span_x();
        let sy = self.span_y();
        assert(sx * sy > 0);
        assert(sy >= 1) by (nonlinear_arith)
            requires
                sx * sy > 0,
                sx >= 0,
                sy >= 0,
        ;
        assert(sx >= 1) by (nonlinear_arith)
            requires
                sx * sy > 0,
                sx >= 0,
                sy >= 0,
        ;
        let q = k / sy;
        let r = k % sy;
        vstd::arithmetic::div_mod::lemma_fundamental_div_mod(k, sy);
        vstd::arithmetic::div_mod::lemma_mod_bound(k, sy);
        vstd::arithmetic::div_mod::lemma_div_pos_is_pos(k, sy);
        assert(q < sx) by (nonlinear_arith)
            requires
                k == sy * q + r,
                0 <= r < sy,
                k < sx * sy,
                q >= 0,
        ;
    }

    /// Builds a box, rejecting crossed bounds.
    pub fn new(x_min: u32, y_min: u32, x_max: u32, y_max: u32) -> (r: Result<Self, Error>)
        ensures
            x_min <= x_max && y_min <= y_max ==> r == Ok::<Self, Error>(
                (BoundingBox { x_min, y_min, x_max, y_max }),
            ),
            !(x_min <= x_max && y_min <= y_max) ==> r == Err::<Self, Error>(Error::InvalidRange),
    {
        if x_min > x_max || y_min > y_max {
            return Err(Error::InvalidRange);
        }
        Ok(BoundingBox { x_min, y_min, x_max, y_max })
    }

    pub fn x_min(&self) -> (r: u32)
        ensures
            r == self.x_min,
    {
        self.x_min
    }

    pub fn y_min(&self) -> (r: u32)
        ensures
            r == self.y_min,
    {
        self.y_min
    }

    pub fn x_max(&self) -> (r: u32)
        ensures
            r == self.x_max,
    {
        self.x_max
    }

    pub fn y_max(&self) -> (r: u32)
        ensures
            r == self.y_max,
    {
        self.y_max
    }

    /// Replaces all four bounds in one call. The new bounds are validated
    /// before any of them is committed: each new minimum must not cross the
    /// box's current opposite maximum, and the new bounds must be ordered
    /// among themselves. On rejection the box is left unchanged.
    pub fn set_coordinates(&mut self, x_min: u32, y_min: u32, x_max: u32, y_max: u32) -> (r:
        Result<(), Error>)
        ensures
            x_min <= old(self).x_max && y_min <= old(self).y_max && x_min <= x_max && y_min
                <= y_max ==> r == Ok::<(), Error>(()) && *final(self) == (BoundingBox {
                x_min,
                y_min,
                x_max,
                y_max,
            }),
            !(x_min <= old(self).x_max && y_min <= old(self).y_max && x_min <= x_max && y_min
                <= y_max) ==> r == Err::<(), Error>(Error::InvalidRange) && *final(self) == *old(
                self,
            ),
    {
        if x_min > self.x_max || y_min > self.y_max || x_min > x_max || y_min > y_max {
            return Err(Error::InvalidRange);
        }
        self.x_min = x_min;
        self.y_min = y_min;
        self.x_max = x_max;
        self.y_max = y_max;
        Ok(())
    }

    /// Every `(x, y)` with `x` in `[x_min, x_max)` and `y` in `[y_min, y_max)`,
    /// in column-major order, matching `coords`.
    pub fn iter(&self) -> (r: Vec<(u32, u32)>)
        requires
            self.wf(),
        ensures
            r@ == self.coords(),
    {
        let h: u32 = self.y_max - self.y_min;
        let mut out: Vec<(u32, u32)> = Vec::new();
        let mut x: u32 = self.x_min;
        while x < self.x_max
            invariant
                self.wf(),
                h == self.span_y(),
                self.x_min <= x <= self.x_max,
                out@.len() == (x - self.x_min) * h,
                forall|k: int| 0 <= k < out@.len() ==> out@[k] == self.coords()[k],
                out@.len() <= self.coords().len(),
            decreases self.x_max - x,
        {
            let mut y: u32 = self.y_min;
            while y < self.y_max
                invariant
                    self.wf(),
                    h == self.span_y(),
                    self.x_min <= x < self.x_max,
                    self.y_min <= y <= self.y_max,
                    out@.len() == (x - self.x_min) * h + (y - self.y_min),
                    forall|k: int| 0 <= k < out@.len() ==> out@[k] == self.coords()[k],
                    out@.len() <= self.coords().len(),
                decreases self.y_max - y,
            {
                proof {
                    let q = x - self.x_min;
                    let rr = y - self.y_min;
                    let k = q * h + rr;
                    vstd::arithmetic::div_mod::lemma_fundamental_div_mod_converse(
                        k,
                        h as int,
                        q,
                        rr,
                    );
                    assert(k / (h as int) == q);
                    assert(k % (h as int) == rr);
                    assert(q * (h as int) + rr < self.span_x() * self.span_y()) by {
                        vstd::arithmetic::mul::lemma_mul_inequality(
                            q + 1,
                            self.span_x(),
                            self.span_y(),
                        );
                        vstd::arithmetic::mul::lemma_mul_is_distributive_add_other_way(
                            self.span_y(),
                            q,
                            1,
                        );
                    }
                }
                out.push((x, y));
                y = y + 1;
            }
            x = x + 1;
            proof {
                vstd::arithmetic::mul::lemma_mul_is_distributive_add_other_way(
                    h as int,
                    x - self.x_min - 1,
                    1,
                );
            }
        }
        proof {
            vstd::arithmetic::mul::lemma_mul_inequality(
                x - self.x_min,
                self.span_x(),
                self.span_y(),
            );
            assert(out@.len() == self.coords().len());
            assert(out@ =~= self.coords());
        }
        out
    }

    /// Accepts the box iff its iterated width and height each lie within the
    /// inclusive `[min, max]` size bounds; one out-of-range axis rejects the
    /// whole box. Width and height here are the exclusive-bound spans
    /// `x_max - x_min` and `y_max - y_min`.
    pub fn is_within_size_bounds(&self, min_size: (u32, u32), max_size: (u32, u32)) -> (r: bool)
        requires
            self.wf(),
        ensures
            r <==> (min_size.0 <= self.span_x() <= max_size.0 && min_size.1 <= self.span_y()
                <= max_size.1),
    {
        !((self.x_max - self.x_min < min_size.0 || self.y_max - self.y_min < min_size.1) || (
        self.x_max - self.x_min > max_size.0 || self.y_max - self.y_min > max_size.1))
    }
}

} // verus!
